//! RLWE ciphertexts `(a, b)` with `a`, `b` in `Z_q[X]/(X^N + 1)`, secret keys,
//! and the operations the ORAM applies to them.
use vstd::prelude::*;

use crate::backend::{
    binary_noise, decrypt_glwe, encrypt_constant_ggsw, encrypt_glwe_binary, encrypt_glwe_ternary,
    generate_binary_glwe_key, glwe_decryption, is_native, reduced_under, ternary_noise, valid_modulus, EncryptionGenerator,
    SecretGenerator,
};
use crate::codec::{poly_decode_spec, poly_encode_spec, ternary_decode_spec, ternary_encode_spec, Codec};
use crate::context::Context;
use crate::rgsw::{ggsw_row_message, row_mask, RGSWCiphertext};
use crate::poly::{
    lemma_wrap_add, lemma_wrap_neg, lemma_wrap_small, lemma_wrap_sub, lemma_wrapping_add,
    lemma_wrapping_sub, negacyclic, seq_add, seq_neg, seq_scale, seq_sub, slice_add_assign, slice_sub_assign,
    wrap, zero_poly,
};

verus! {

/// An RLWE ciphertext: a mask polynomial and a body polynomial of the same
/// size, and the ciphertext modulus it is meant for (`2^64` is the native one).
#[derive(Clone, Debug)]
pub struct RLWECiphertext {
    pub mask: Vec<u64>,
    pub body: Vec<u64>,
    pub modulus: u128,
}

/// The native ciphertext modulus `2^64`, as stored in ciphertexts.
pub open spec fn native_modulus() -> u128 {
    0x1_0000_0000_0000_0000
}

/// The phase `body - mask * key` of an RLWE ciphertext under `key`.
pub open spec fn phase(key: Seq<u64>, mask: Seq<u64>, body: Seq<u64>) -> Seq<u64> {
    seq_sub(body, negacyclic(mask, key))
}

/// `q/2`, the encoding of a binary `1`.
pub open spec fn half_modulus() -> u64 {
    0x8000_0000_0000_0000
}

/// The coefficient-wise opposite of `(a, b)` with `q/2` added to the constant
/// coefficient of the body.
pub open spec fn not_body(b: Seq<u64>) -> Seq<u64> {
    seq_neg(b).update(0, wrap(seq_neg(b)[0] + half_modulus()))
}

impl RLWECiphertext {
    /// The mask and the body have the same positive size.
    pub open spec fn wf(&self) -> bool {
        &&& self.mask.len() == self.body.len()
        &&& self.mask.len() > 0
    }

    /// The polynomial size `N`.
    pub open spec fn size(&self) -> nat {
        self.mask.len() as nat
    }

    /// A ciphertext of size `poly_size` with every coefficient zero.
    pub fn allocate(poly_size: usize, modulus: u128) -> (r: Self)
        ensures
            r.mask@ == zero_poly(poly_size as nat),
            r.body@ == zero_poly(poly_size as nat),
            r.modulus == modulus,
    {
        let mut mask: Vec<u64> = Vec::new();
        let mut body: Vec<u64> = Vec::new();
        let mut i: usize = 0;
        while i < poly_size
            invariant
                i <= poly_size,
                mask@ == zero_poly(i as nat),
                body@ == zero_poly(i as nat),
            decreases poly_size - i,
        {
            mask.push(0);
            body.push(0);
            i += 1;
            assert(mask@ =~= zero_poly(i as nat));
            assert(body@ =~= zero_poly(i as nat));
        }
        RLWECiphertext { mask, body, modulus }
    }

    /// The ciphertext modulus.
    pub fn ciphertext_modulus(&self) -> (r: u128)
        ensures
            r == self.modulus,
    {
        self.modulus
    }

    /// The polynomial size `N`.
    pub fn polynomial_size(&self) -> (r: usize)
        ensures
            r == self.mask.len(),
    {
        self.mask.len()
    }

    /// The body polynomial.
    pub fn get_body(&self) -> (r: &[u64])
        ensures
            r@ == self.body@,
    {
        self.body.as_slice()
    }

    /// The mask polynomial.
    pub fn get_mask(&self) -> (r: &[u64])
        ensures
            r@ == self.mask@,
    {
        self.mask.as_slice()
    }

    /// The mask polynomial, to be modified in place.
    pub fn get_mut_mask(&mut self) -> (r: &mut Vec<u64>)
        ensures
            *r == old(self).mask,
            final(self).mask == *final(r),
            final(self).body == old(self).body,
            final(self).modulus == old(self).modulus,
    {
        &mut self.mask
    }

    /// The body polynomial, to be modified in place.
    pub fn get_mut_body(&mut self) -> (r: &mut Vec<u64>)
        ensures
            *r == old(self).body,
            final(self).body == *final(r),
            final(self).mask == old(self).mask,
            final(self).modulus == old(self).modulus,
    {
        &mut self.body
    }

    /// Set every coefficient to zero.
    pub fn clear(&mut self)
        ensures
            final(self).mask@ == zero_poly(old(self).mask.len() as nat),
            final(self).body@ == zero_poly(old(self).body.len() as nat),
            final(self).modulus == old(self).modulus,
    {
        fill_zero(&mut self.mask);
        fill_zero(&mut self.body);
    }

    /// Copy the coefficients of `other` into this ciphertext.
    pub fn fill_with_copy(&mut self, other: &RLWECiphertext)
        requires
            old(self).mask.len() == other.mask.len(),
            old(self).body.len() == other.body.len(),
        ensures
            final(self).mask@ == other.mask@,
            final(self).body@ == other.body@,
            final(self).modulus == old(self).modulus,
    {
        copy_into(&mut self.mask, other.mask.as_slice());
        copy_into(&mut self.body, other.body.as_slice());
    }

    /// Copy `s = mask || body` into this ciphertext.
    pub fn fill_with_slice(&mut self, s: &[u64])
        requires
            old(self).wf(),
            s.len() == 2 * old(self).mask.len(),
        ensures
            final(self).mask@ == s@.take(old(self).mask.len() as int),
            final(self).body@ == s@.skip(old(self).mask.len() as int),
            final(self).modulus == old(self).modulus,
    {
        let n = self.mask.len();
        let mut i: usize = 0;
        while i < n
            invariant
                n == self.mask.len(),
                n == self.body.len(),
                s.len() == 2 * n,
                i <= n,
                self.modulus == old(self).modulus,
                forall|j: int| 0 <= j < i ==> self.mask@[j] == s@[j],
                forall|j: int| 0 <= j < i ==> self.body@[j] == s@[n + j],
            decreases n - i,
        {
            self.mask.set(i, s[i]);
            self.body.set(i, s[n + i]);
            i += 1;
        }
        assert(self.mask@ =~= s@.take(n as int));
        assert(self.body@ =~= s@.skip(n as int));
    }

    /// Add `other` to the mask.
    pub fn update_mask_with_add(&mut self, other: &[u64])
        requires
            other.len() == old(self).mask.len(),
        ensures
            final(self).mask@ == seq_add(old(self).mask@, other@),
            final(self).body == old(self).body,
            final(self).modulus == old(self).modulus,
    {
        slice_add_assign(&mut self.mask, other);
    }

    /// Subtract `other` from the mask.
    pub fn update_mask_with_sub(&mut self, other: &[u64])
        requires
            other.len() == old(self).mask.len(),
        ensures
            final(self).mask@ == seq_sub(old(self).mask@, other@),
            final(self).body == old(self).body,
            final(self).modulus == old(self).modulus,
    {
        slice_sub_assign(&mut self.mask, other);
    }

    /// Add `other` to the body.
    pub fn update_body_with_add(&mut self, other: &[u64])
        requires
            other.len() == old(self).body.len(),
        ensures
            final(self).body@ == seq_add(old(self).body@, other@),
            final(self).mask == old(self).mask,
            final(self).modulus == old(self).modulus,
    {
        slice_add_assign(&mut self.body, other);
    }

    /// Subtract `other` from the body.
    pub fn update_body_with_sub(&mut self, other: &[u64])
        requires
            other.len() == old(self).body.len(),
        ensures
            final(self).body@ == seq_sub(old(self).body@, other@),
            final(self).mask == old(self).mask,
            final(self).modulus == old(self).modulus,
    {
        slice_sub_assign(&mut self.body, other);
    }

    /// Multiply the mask by `other` in `Z_q[X]/(X^N + 1)`.
    pub fn update_mask_with_mul(&mut self, other: &[u64])
        requires
            old(self).wf(),
            other.len() == old(self).mask.len(),
        ensures
            final(self).mask@ == negacyclic(old(self).mask@, other@),
            final(self).body == old(self).body,
            final(self).modulus == old(self).modulus,
    {
        let n = self.mask.len();
        let buf = self.mask.clone();
        fill_zero(&mut self.mask);
        naive_update_with_mul_acc(&mut self.mask, buf.as_slice(), other);
        proof {
            crate::poly::lemma_seq_add_zero(negacyclic(buf@, other@));
        }
    }

    /// Multiply the body by `other` in `Z_q[X]/(X^N + 1)`.
    pub fn update_body_with_mul(&mut self, other: &[u64])
        requires
            old(self).wf(),
            other.len() == old(self).body.len(),
        ensures
            final(self).body@ == negacyclic(old(self).body@, other@),
            final(self).mask == old(self).mask,
            final(self).modulus == old(self).modulus,
    {
        let buf = self.body.clone();
        fill_zero(&mut self.body);
        naive_update_with_mul_acc(&mut self.body, buf.as_slice(), other);
        proof {
            crate::poly::lemma_seq_add_zero(negacyclic(buf@, other@));
        }
    }

    /// Multiply the mask by the integer polynomial `other`; the product is
    /// computed exactly.
    pub fn update_mask_with_mul_with_buf(&mut self, other: &[u64])
        requires
            old(self).wf(),
            other.len() == old(self).mask.len(),
        ensures
            final(self).mask@ == negacyclic(old(self).mask@, other@),
            final(self).body == old(self).body,
            final(self).modulus == old(self).modulus,
    {
        self.update_mask_with_mul(other);
    }

    /// Multiply the body by the integer polynomial `other`; the product is
    /// computed exactly.
    pub fn update_body_with_mul_with_buf(&mut self, other: &[u64])
        requires
            old(self).wf(),
            other.len() == old(self).body.len(),
        ensures
            final(self).body@ == negacyclic(old(self).body@, other@),
            final(self).mask == old(self).mask,
            final(self).modulus == old(self).modulus,
    {
        self.update_body_with_mul(other);
    }

    /// Add `other` to this ciphertext, coefficient by coefficient.
    pub fn update_with_add(&mut self, other: &RLWECiphertext)
        requires
            old(self).mask.len() == other.mask.len(),
            old(self).body.len() == other.body.len(),
        ensures
            final(self).mask@ == seq_add(old(self).mask@, other.mask@),
            final(self).body@ == seq_add(old(self).body@, other.body@),
            final(self).modulus == old(self).modulus,
    {
        self.update_mask_with_add(other.mask.as_slice());
        self.update_body_with_add(other.body.as_slice());
    }

    /// Subtract `other` from this ciphertext, coefficient by coefficient.
    pub fn update_with_sub(&mut self, other: &RLWECiphertext)
        requires
            old(self).mask.len() == other.mask.len(),
            old(self).body.len() == other.body.len(),
        ensures
            final(self).mask@ == seq_sub(old(self).mask@, other.mask@),
            final(self).body@ == seq_sub(old(self).body@, other.body@),
            final(self).modulus == old(self).modulus,
    {
        self.update_mask_with_sub(other.mask.as_slice());
        self.update_body_with_sub(other.body.as_slice());
    }

    /// When this ciphertext encrypts `X^m`, turn it into an encryption of a
    /// polynomial whose constant term is `1` if `m <= d` and `0` otherwise.
    pub fn less_eq_than(&mut self, d: usize)
        requires
            old(self).wf(),
            d < old(self).mask.len(),
        ensures
            final(self).mask@ == negacyclic(old(self).mask@, less_eq_poly(old(self).size(), d as int)),
            final(self).body@ == negacyclic(old(self).body@, less_eq_poly(old(self).size(), d as int)),
            final(self).modulus == old(self).modulus,
    {
        let n = self.polynomial_size();
        let mut t: Vec<u64> = Vec::new();
        let mut i: usize = 0;
        while i < n
            invariant
                i <= n,
                d < n,
                t.len() == i,
                forall|j: int| 0 <= j < i ==> t@[j] == less_eq_poly(n as nat, d as int)[j],
            decreases n - i,
        {
            if i == 0 {
                t.push(1);
            } else if i >= n - d {
                t.push(u64::MAX);
            } else {
                t.push(0);
            }
            i += 1;
        }
        assert(t@ =~= less_eq_poly(n as nat, d as int));
        self.update_body_with_mul_with_buf(t.as_slice());
        self.update_mask_with_mul_with_buf(t.as_slice());
    }

    /// When this ciphertext encrypts `X^m`, turn it into an encryption of a
    /// polynomial whose constant term is `1` if `m == d` and `0` otherwise.
    pub fn eq_to(&mut self, d: usize)
        requires
            old(self).wf(),
            d < old(self).mask.len(),
        ensures
            final(self).mask@ == negacyclic(old(self).mask@, eq_poly(old(self).size(), d as int)),
            final(self).body@ == negacyclic(old(self).body@, eq_poly(old(self).size(), d as int)),
            final(self).modulus == old(self).modulus,
    {
        let n = self.polynomial_size();
        let mut t: Vec<u64> = Vec::new();
        let mut i: usize = 0;
        while i < n
            invariant
                i <= n,
                d < n,
                t.len() == i,
                forall|j: int| 0 <= j < i ==> t@[j] == eq_poly(n as nat, d as int)[j],
            decreases n - i,
        {
            if d == 0 && i == 0 {
                t.push(1);
            } else if d != 0 && i == n - d {
                t.push(u64::MAX);
            } else {
                t.push(0);
            }
            i += 1;
        }
        assert(t@ =~= eq_poly(n as nat, d as int));
        self.update_body_with_mul_with_buf(t.as_slice());
        self.update_mask_with_mul_with_buf(t.as_slice());
    }

    /// The NOT gate on a ciphertext of a binary plaintext encoded at `q/2`:
    /// `(a, b)` becomes `(-a, q/2 - b)`.
    pub fn not_in_place(&mut self)
        requires
            old(self).wf(),
        ensures
            final(self).mask@ == seq_neg(old(self).mask@),
            final(self).body@ == not_body(old(self).body@),
            final(self).modulus == old(self).modulus,
    {
        neg_in_place(&mut self.mask);
        neg_in_place(&mut self.body);
        let b0 = self.body[0];
        let v = b0.wrapping_add(0x8000_0000_0000_0000u64);
        proof {
            lemma_wrapping_add(b0, 0x8000_0000_0000_0000u64);
        }
        self.body.set(0, v);
    }

    /// NOT of this ciphertext as a new ciphertext: with the native modulus
    /// `(a, b)` becomes `(-a, q/2 - b)`, as `not_in_place` makes it; with a
    /// custom modulus `q`, every coefficient `x` becomes `q - x` (`0` stays
    /// `0`), then `2^63` is added to the constant coefficient of the body.
    pub fn not(&self) -> (r: Self)
        requires
            self.wf(),
            valid_modulus(self.modulus),
        ensures
            r.modulus == self.modulus,
            is_native(self.modulus) ==> r.mask@ == seq_neg(self.mask@) && r.body@ == not_body(self.body@),
            !is_native(self.modulus) ==> r.mask@ == custom_neg(self.mask@, self.modulus as u64)
                && r.body@ == custom_neg(self.body@, self.modulus as u64).update(
                0,
                wrap(custom_neg(self.body@, self.modulus as u64)[0] + half_modulus()),
            ),
    {
        if self.modulus == 0 || self.modulus == 0x1_0000_0000_0000_0000u128 {
            let mut out = Self { mask: self.mask.clone(), body: self.body.clone(), modulus: self.modulus };
            out.not_in_place();
            return out;
        }
        let q = self.modulus as u64;
        let mut out = Self::allocate(self.polynomial_size(), self.modulus);
        custom_neg_into(&mut out.mask, self.mask.as_slice(), q);
        custom_neg_into(&mut out.body, self.body.as_slice(), q);
        let b0 = out.body[0];
        let v = b0.wrapping_add(0x8000_0000_0000_0000u64);
        proof {
            lemma_wrapping_add(b0, 0x8000_0000_0000_0000u64);
        }
        out.body.set(0, v);
        out
    }
}

/// The polynomial `1 - X^(N-d) - ... - X^(N-1)` used by `less_eq_than`.
pub open spec fn less_eq_poly(n: nat, d: int) -> Seq<u64> {
    Seq::new(
        n,
        |i: int|
            if i == 0 {
                1u64
            } else if i >= n - d {
                u64::MAX
            } else {
                0u64
            },
    )
}

/// The monomial `X^(-d)` (that is `1` when `d == 0`, else `-X^(N-d)`) used by `eq_to`.
pub open spec fn eq_poly(n: nat, d: int) -> Seq<u64> {
    Seq::new(
        n,
        |i: int|
            if d == 0 && i == 0 {
                1u64
            } else if d != 0 && i == n - d {
                u64::MAX
            } else {
                0u64
            },
    )
}

/// `q - x` for each coefficient `x`, with `0` left as `0` (all modulo `2^64`).
pub open spec fn custom_neg(a: Seq<u64>, q: u64) -> Seq<u64> {
    Seq::new(a.len(), |i: int| if a[i] == 0 { 0u64 } else { wrap(q - a[i]) })
}

fn fill_zero(v: &mut Vec<u64>)
    ensures
        final(v)@ == zero_poly(old(v).len() as nat),
{
    let n = v.len();
    let mut i: usize = 0;
    while i < n
        invariant
            n == v.len(),
            i <= n,
            forall|j: int| 0 <= j < i ==> v@[j] == 0,
        decreases n - i,
    {
        v.set(i, 0);
        i += 1;
    }
    assert(v@ =~= zero_poly(n as nat));
}

fn copy_into(v: &mut Vec<u64>, s: &[u64])
    requires
        old(v).len() == s.len(),
    ensures
        final(v)@ == s@,
{
    let n = v.len();
    let mut i: usize = 0;
    while i < n
        invariant
            n == v.len(),
            n == s.len(),
            i <= n,
            forall|j: int| 0 <= j < i ==> v@[j] == s@[j],
        decreases n - i,
    {
        v.set(i, s[i]);
        i += 1;
    }
    assert(v@ =~= s@);
}

fn neg_in_place(v: &mut Vec<u64>)
    ensures
        final(v)@ == seq_neg(old(v)@),
{
    let n = v.len();
    let mut i: usize = 0;
    while i < n
        invariant
            n == v.len(),
            i <= n,
            old(v).len() == n,
            forall|j: int| 0 <= j < i ==> v@[j] == wrap(-old(v)@[j]),
            forall|j: int| i <= j < n ==> v@[j] == old(v)@[j],
        decreases n - i,
    {
        let x = v[i];
        let y = 0u64.wrapping_sub(x);
        proof {
            lemma_wrapping_sub(0, x);
        }
        v.set(i, y);
        i += 1;
    }
    assert(v@ =~= seq_neg(old(v)@));
}

fn custom_neg_into(out: &mut Vec<u64>, s: &[u64], q: u64)
    requires
        old(out).len() == s.len(),
    ensures
        final(out)@ == custom_neg(s@, q),
{
    let n = out.len();
    let mut i: usize = 0;
    while i < n
        invariant
            n == out.len(),
            n == s.len(),
            i <= n,
            forall|j: int| 0 <= j < i ==> out@[j] == custom_neg(s@, q)[j],
        decreases n - i,
    {
        let x = s[i];
        let y = if 0 >= x {
            0u64
        } else {
            let w = 0u64.wrapping_sub(x).wrapping_add(q);
            proof {
                lemma_wrapping_sub(0, x);
                lemma_wrapping_add(0u64.wrapping_sub(x), q);
                lemma_wrap_add(0 - x, q as int);
            }
            w
        };
        out.set(i, y);
        i += 1;
    }
    assert(out@ =~= custom_neg(s@, q));
}

/// `out += p1 * p2` in `Z_q[X]/(X^N + 1)`.
pub fn naive_update_with_mul_acc(out: &mut Vec<u64>, p1: &[u64], p2: &[u64])
    requires
        old(out).len() == p1.len(),
        p1.len() == p2.len(),
    ensures
        final(out)@ == seq_add(old(out)@, negacyclic(p1@, p2@)),
{
    let n = p1.len();
    let prod = crate::oram::negacyclic_mul(p1, p2, n);
    proof {
        assert(p1@.take(n as int) =~= p1@);
        assert(p2@.take(n as int) =~= p2@);
    }
    slice_add_assign(out, prod.as_slice());
}

/// `p1 = p1 * p2` in `Z_q[X]/(X^N + 1)`.
pub fn naive_update_with_mul(p1: &mut Vec<u64>, p2: &[u64])
    requires
        old(p1).len() == p2.len(),
    ensures
        final(p1)@ == negacyclic(old(p1)@, p2@),
{
    let n = p2.len();
    let prod = crate::oram::negacyclic_mul(p1.as_slice(), p2, n);
    proof {
        assert(p1@.take(n as int) =~= p1@);
        assert(p2@.take(n as int) =~= p2@);
    }
    copy_into(p1, prod.as_slice());
}


/// Applying the NOT gate twice gives back the ciphertext.
pub proof fn lemma_not_in_place_involution(mask: Seq<u64>, body: Seq<u64>)
    requires
        body.len() > 0,
    ensures
        seq_neg(seq_neg(mask)) == mask,
        not_body(not_body(body)) == body,
{
    assert forall|i: int| 0 <= i < mask.len() implies seq_neg(seq_neg(mask))[i] == mask[i] by {
        lemma_wrap_neg(-mask[i]);
        lemma_wrap_small(mask[i] as int);
    }
    assert(seq_neg(seq_neg(mask)) =~= mask);
    assert forall|i: int| 0 <= i < body.len() implies not_body(not_body(body))[i] == body[i] by {
        lemma_wrap_small(body[i] as int);
        if i == 0 {
            let b0 = body[0] as int;
            let h = half_modulus() as int;
            lemma_wrap_add(-b0, h);
            lemma_wrap_neg(-b0 + h);
            lemma_wrap_add(-(-b0 + h), h);
            lemma_wrap_neg(b0);
            assert(-(-b0 + h) + h == b0);
        } else {
            lemma_wrap_neg(-body[i]);
        }
    }
    assert(not_body(not_body(body)) =~= body);
}

/// Subtracting what was added gives back the polynomial it started from.
pub proof fn lemma_add_then_sub(a: Seq<u64>, b: Seq<u64>)
    requires
        a.len() == b.len(),
    ensures
        seq_sub(seq_add(a, b), b) == a,
{
    assert forall|i: int| 0 <= i < a.len() implies seq_sub(seq_add(a, b), b)[i] == a[i] by {
        lemma_wrap_sub(a[i] + b[i], b[i] as int);
        lemma_wrap_small(a[i] as int);
    }
    assert(seq_sub(seq_add(a, b), b) =~= a);
}

/// The constant coefficient of `X^m * p` in `Z_q[X]/(X^n + 1)` is `p[0]` when
/// `m == 0` and `-p[n - m]` otherwise.
proof fn lemma_monomial_times_constant_coeff(p: Seq<u64>, m: int)
    requires
        0 <= m < p.len(),
    ensures
        negacyclic(crate::poly::monomial(p.len(), m, false), p)[0] == if m == 0 {
            p[0]
        } else {
            wrap(-p[p.len() - m])
        },
{
    let n = p.len() as int;
    let x = crate::poly::monomial(p.len(), m, false);
    assert forall|i: int| 0 <= i < n && i != m implies #[trigger] crate::poly::nega_term(
        x,
        p,
        n,
        i,
        0,
    ) == 0 by {}
    crate::poly::lemma_nega_partial_single(x, p, n, 0, m, n);
    lemma_wrap_small(p[0] as int);
}

/// `less_eq_than(d)` maps the plaintext `X^m` to a polynomial whose constant
/// coefficient is `1` when `m <= d` and `0` otherwise.
pub proof fn lemma_less_eq_poly_selects(n: nat, m: int, d: int)
    requires
        0 <= m < n,
        0 <= d < n,
    ensures
        negacyclic(crate::poly::monomial(n, m, false), less_eq_poly(n, d))[0] == if m <= d {
            1u64
        } else {
            0u64
        },
{
    lemma_monomial_times_constant_coeff(less_eq_poly(n, d), m);
    crate::poly::lemma_wrap_mul_max(1);
    lemma_wrap_small(0);
    lemma_wrap_small(1);
    assert(wrap(-0int) == 0);
}

/// `eq_to(d)` maps the plaintext `X^m` to a polynomial whose constant
/// coefficient is `1` when `m == d` and `0` otherwise.
pub proof fn lemma_eq_poly_selects(n: nat, m: int, d: int)
    requires
        0 <= m < n,
        0 <= d < n,
    ensures
        negacyclic(crate::poly::monomial(n, m, false), eq_poly(n, d))[0] == if m == d {
            1u64
        } else {
            0u64
        },
{
    lemma_monomial_times_constant_coeff(eq_poly(n, d), m);
    crate::poly::lemma_wrap_mul_max(1);
    lemma_wrap_small(0);
    lemma_wrap_small(1);
    assert(wrap(-0int) == 0);
}


/// An RLWE secret key: one binary polynomial.
#[derive(Clone, Debug)]
pub struct RLWESecretKey {
    pub key: Vec<u64>,
}

/// Every coefficient is `0` or `1`.
pub open spec fn is_binary(p: Seq<u64>) -> bool {
    forall|i: int| 0 <= i < p.len() ==> #[trigger] p[i] <= 1
}

impl RLWESecretKey {
    /// A key of positive size.
    pub open spec fn wf(&self) -> bool {
        self.key.len() > 0
    }

    /// A secret key of size `poly_size` with uniformly random binary coefficients.
    pub fn generate_binary(poly_size: usize, generator: &mut SecretGenerator) -> (r: Self)
        requires
            poly_size > 0,
        ensures
            r.wf(),
            is_binary(r.key@),
            r.key.len() == poly_size,
    {
        RLWESecretKey { key: generate_binary_glwe_key(poly_size, generator) }
    }

    /// The trivial secret key of size `poly_size`, all coefficients zero.
    pub fn zero(poly_size: usize) -> (r: Self)
        ensures
            r.key@ == zero_poly(poly_size as nat),
    {
        let mut key: Vec<u64> = Vec::new();
        let mut i: usize = 0;
        while i < poly_size
            invariant
                i <= poly_size,
                key@ == zero_poly(i as nat),
            decreases poly_size - i,
        {
            key.push(0);
            i += 1;
            assert(key@ =~= zero_poly(i as nat));
        }
        RLWESecretKey { key }
    }

    /// Replace the coefficients of the key with `s`.
    pub fn fill_with_slice(&mut self, s: &[u64])
        requires
            s.len() == old(self).key.len(),
        ensures
            final(self).key@ == s@,
    {
        copy_into(&mut self.key, s);
    }

    /// The polynomial size `N`.
    pub fn polynomial_size(&self) -> (r: usize)
        ensures
            r == self.key.len(),
    {
        self.key.len()
    }

    /// Encrypt the plaintext polynomial `pt` with binary noise under the
    /// native modulus: the phase of the result is `pt + e`, `e` binary.
    pub fn encrypt_rlwe_binary(
        &self,
        encrypted: &mut RLWECiphertext,
        pt: &Vec<u64>,
        generator: &mut EncryptionGenerator,
    )
        requires
            self.wf(),
            old(encrypted).mask.len() == self.key.len(),
            old(encrypted).body.len() == self.key.len(),
            pt.len() == self.key.len(),
            is_native(old(encrypted).modulus),
        ensures
            final(encrypted).mask.len() == self.key.len(),
            final(encrypted).body.len() == self.key.len(),
            final(encrypted).modulus == old(encrypted).modulus,
            encrypts_with_binary_noise(
                self.key@,
                *final(encrypted),
                pt@,
            ),
    {
        encrypt_glwe_binary(
            self.key.as_slice(),
            &mut encrypted.mask,
            &mut encrypted.body,
            pt.as_slice(),
            encrypted.modulus,
            generator,
        );
    }

    /// Encrypt the plaintext polynomial `pt` with ternary noise under the
    /// native modulus: the phase of the result is `pt + e`, `e` ternary.
    pub fn encrypt_rlwe_ternary(
        &self,
        encrypted: &mut RLWECiphertext,
        pt: &Vec<u64>,
        generator: &mut EncryptionGenerator,
    )
        requires
            self.wf(),
            old(encrypted).mask.len() == self.key.len(),
            old(encrypted).body.len() == self.key.len(),
            pt.len() == self.key.len(),
            is_native(old(encrypted).modulus),
        ensures
            final(encrypted).mask.len() == self.key.len(),
            final(encrypted).body.len() == self.key.len(),
            final(encrypted).modulus == old(encrypted).modulus,
            forall|i: int|
                0 <= i < self.key.len() ==> ternary_noise(
                    #[trigger] wrap(
                        phase(self.key@, final(encrypted).mask@, final(encrypted).body@)[i]
                            - pt@[i],
                    ),
                ),
    {
        encrypt_glwe_ternary(
            self.key.as_slice(),
            &mut encrypted.mask,
            &mut encrypted.body,
            pt.as_slice(),
            encrypted.modulus,
            generator,
        );
    }

    /// Encode the plaintext `pt` with the context's codec, then encrypt it
    /// with binary noise.
    pub fn encode_encrypt_rlwe_binary(
        &self,
        encrypted: &mut RLWECiphertext,
        pt: &Vec<u64>,
        ctx: &mut Context,
    )
        requires
            self.wf(),
            old(ctx).wf(),
            old(encrypted).mask.len() == self.key.len(),
            old(encrypted).body.len() == self.key.len(),
            pt.len() == self.key.len(),
            is_native(old(encrypted).modulus),
        ensures
            final(encrypted).mask.len() == self.key.len(),
            final(encrypted).body.len() == self.key.len(),
            final(encrypted).modulus == old(encrypted).modulus,
            final(ctx).same_params(*old(ctx)),
            encrypts_with_binary_noise(
                self.key@,
                *final(encrypted),
                poly_encode_spec(old(ctx).codec.pt_bits as nat, pt@),
            ),
    {
        let mut binary_encoded = pt.clone();
        ctx.codec.poly_encode(&mut binary_encoded);
        self.encrypt_rlwe_binary(encrypted, &binary_encoded, &mut ctx.encryption_generator);
    }

    /// Encode the ternary plaintext `pt`, then encrypt it with ternary noise.
    pub fn encode_encrypt_rlwe_ternary(
        &self,
        encrypted: &mut RLWECiphertext,
        pt: &Vec<u64>,
        ctx: &mut Context,
    )
        requires
            self.wf(),
            old(encrypted).mask.len() == self.key.len(),
            old(encrypted).body.len() == self.key.len(),
            pt.len() == self.key.len(),
            is_native(old(encrypted).modulus),
        ensures
            final(encrypted).mask.len() == self.key.len(),
            final(encrypted).body.len() == self.key.len(),
            final(encrypted).modulus == old(encrypted).modulus,
            final(ctx).same_params(*old(ctx)),
            forall|i: int|
                0 <= i < self.key.len() ==> ternary_noise(
                    #[trigger] wrap(
                        phase(self.key@, final(encrypted).mask@, final(encrypted).body@)[i]
                            - ternary_encode_spec(pt@[i]),
                    ),
                ),
    {
        let mut ternary_encoded = pt.clone();
        Codec::poly_ternary_encode(&mut ternary_encoded);
        self.encrypt_rlwe_ternary(encrypted, &ternary_encoded, &mut ctx.encryption_generator);
        proof {
            if is_native(old(encrypted).modulus) {
                assert forall|i: int| 0 <= i < self.key.len() implies ternary_noise(
                    #[trigger] wrap(
                        phase(self.key@, final(encrypted).mask@, final(encrypted).body@)[i]
                            - ternary_encode_spec(pt@[i]),
                    ),
                ) by {
                    assert(ternary_encoded@[i] == ternary_encode_spec(pt@[i]));
                }
            }
        }
    }

    /// Encrypt the scalar `pt` as the constant coefficient of a plaintext
    /// polynomial (the other coefficients zero), without encoding it.
    pub fn encrypt_constant_rlwe(&self, encrypted: &mut RLWECiphertext, pt: u64, ctx: &mut Context)
        requires
            self.wf(),
            old(ctx).poly_size == self.key.len(),
            old(encrypted).mask.len() == self.key.len(),
            old(encrypted).body.len() == self.key.len(),
            is_native(old(encrypted).modulus),
        ensures
            final(encrypted).mask.len() == self.key.len(),
            final(encrypted).body.len() == self.key.len(),
            final(encrypted).modulus == old(encrypted).modulus,
            final(ctx).same_params(*old(ctx)),
            encrypts_with_binary_noise(
                self.key@,
                *final(encrypted),
                zero_poly(self.key.len() as nat).update(0, pt),
            ),
    {
        let mut encoded = ctx.gen_zero_pt();
        encoded.set(0, pt);
        self.encrypt_rlwe_binary(encrypted, &encoded, &mut ctx.encryption_generator);
    }

    /// Decrypt: with the native modulus, the phase `body - mask * key`.
    pub fn decrypt_rlwe(&self, pt: &mut Vec<u64>, encrypted: &RLWECiphertext)
        requires
            self.wf(),
            old(pt).len() == self.key.len(),
            encrypted.mask.len() == self.key.len(),
            encrypted.body.len() == self.key.len(),
            valid_modulus(encrypted.modulus),
            reduced_under(encrypted.modulus, self.key@),
            reduced_under(encrypted.modulus, encrypted.mask@),
            reduced_under(encrypted.modulus, encrypted.body@),
        ensures
            final(pt).len() == self.key.len(),
            final(pt)@ == glwe_decryption(self.key@, encrypted.mask@, encrypted.body@, encrypted.modulus),
            is_native(encrypted.modulus) ==> final(pt)@ == phase(
                self.key@,
                encrypted.mask@,
                encrypted.body@,
            ),
    {
        *pt = decrypt_glwe(
            self.key.as_slice(),
            encrypted.mask.as_slice(),
            encrypted.body.as_slice(),
            encrypted.modulus,
        );
    }

    /// Decrypt, then decode with the context's codec.
    pub fn decrypt_decode_rlwe(&self, pt: &mut Vec<u64>, encrypted: &RLWECiphertext, ctx: &Context)
        requires
            self.wf(),
            ctx.wf(),
            old(pt).len() == self.key.len(),
            encrypted.mask.len() == self.key.len(),
            encrypted.body.len() == self.key.len(),
            valid_modulus(encrypted.modulus),
            reduced_under(encrypted.modulus, self.key@),
            reduced_under(encrypted.modulus, encrypted.mask@),
            reduced_under(encrypted.modulus, encrypted.body@),
        ensures
            final(pt).len() == self.key.len(),
            final(pt)@ == poly_decode_spec(
                ctx.codec.pt_bits as nat,
                glwe_decryption(self.key@, encrypted.mask@, encrypted.body@, encrypted.modulus),
            ),
            is_native(encrypted.modulus) ==> final(pt)@ == poly_decode_spec(
                ctx.codec.pt_bits as nat,
                phase(self.key@, encrypted.mask@, encrypted.body@),
            ),
    {
        self.decrypt_rlwe(pt, encrypted);
        ctx.codec.poly_decode(pt);
    }

    /// Decrypt, then decode ternary coefficients.
    pub fn ternary_decrypt_rlwe(&self, pt: &mut Vec<u64>, encrypted: &RLWECiphertext)
        requires
            self.wf(),
            old(pt).len() == self.key.len(),
            encrypted.mask.len() == self.key.len(),
            encrypted.body.len() == self.key.len(),
            valid_modulus(encrypted.modulus),
            reduced_under(encrypted.modulus, self.key@),
            reduced_under(encrypted.modulus, encrypted.mask@),
            reduced_under(encrypted.modulus, encrypted.body@),
        ensures
            final(pt).len() == self.key.len(),
            final(pt)@ == Seq::new(
                self.key.len() as nat,
                |i: int|
                    ternary_decode_spec(
                        glwe_decryption(self.key@, encrypted.mask@, encrypted.body@, encrypted.modulus)[i],
                    ),
            ),
            is_native(encrypted.modulus) ==> final(pt)@ == Seq::new(
                self.key.len() as nat,
                |i: int|
                    ternary_decode_spec(phase(self.key@, encrypted.mask@, encrypted.body@)[i]),
            ),
    {
        self.decrypt_rlwe(pt, encrypted);
        Codec::poly_ternary_decode(pt);
    }
}

/// With the native modulus, `ct` is an encryption of `pt` under `key` whose
/// noise is binary: each coefficient of the phase is `pt[i]` or `pt[i] + 1`.
pub open spec fn encrypts_with_binary_noise(key: Seq<u64>, ct: RLWECiphertext, pt: Seq<u64>) -> bool {
    forall|i: int|
        0 <= i < key.len() ==> binary_noise(
            #[trigger] wrap(phase(key, ct.mask@, ct.body@)[i] - pt[i]),
        )
}


/// Decoding the decryption of an encryption of encoded plaintexts gives the
/// plaintexts back: a binary noise is removed by the rounding of the codec.
pub proof fn lemma_decrypt_decode_encode(bits: nat, key: Seq<u64>, ct: RLWECiphertext, pt: Seq<u64>)
    requires
        1 <= bits <= 62,
        pt.len() == key.len(),
        ct.mask.len() == key.len(),
        ct.body.len() == key.len(),
        forall|i: int| 0 <= i < pt.len() ==> #[trigger] pt[i] < vstd::arithmetic::power2::pow2(bits),
        encrypts_with_binary_noise(key, ct, poly_encode_spec(bits, pt)),
    ensures
        poly_decode_spec(bits, phase(key, ct.mask@, ct.body@)) == pt,
{
    let ph = phase(key, ct.mask@, ct.body@);
    let enc = poly_encode_spec(bits, pt);
    assert forall|i: int| 0 <= i < pt.len() implies #[trigger] poly_decode_spec(bits, ph)[i]
        == pt[i] by {
        let e = wrap(ph[i] - enc[i]);
        assert(binary_noise(e));
        lemma_wrap_sub(ph[i] as int, enc[i] as int);
        lemma_wrap_add(ph[i] - enc[i], enc[i] as int);
        lemma_wrap_small(ph[i] as int);
        assert(wrap(enc[i] + e) == ph[i]) by {
            lemma_wrap_add(ph[i] - enc[i], enc[i] as int);
        }
        crate::codec::lemma_delta_bounds(bits);
        crate::codec::lemma_decode_encode(bits, pt[i], e as int);
    }
    assert(poly_decode_spec(bits, ph) =~= pt);
}

/// Decoding with the ternary codec the decryption of an encryption of
/// coefficients in `{0, 1, -1}` (encoded with the codec of modulus `4`)
/// gives them back: a noise in `{0, 1, -1}` is removed by the rounding.
pub proof fn lemma_ternary_decrypt_decode_encode(key: Seq<u64>, ct: RLWECiphertext, pt: Seq<u64>)
    requires
        pt.len() == key.len(),
        ct.mask.len() == key.len(),
        ct.body.len() == key.len(),
        forall|i: int| 0 <= i < pt.len() ==> #[trigger] pt[i] == 0 || pt[i] == 1 || pt[i] == u64::MAX,
        forall|i: int|
            0 <= i < key.len() ==> ternary_noise(
                #[trigger] wrap(phase(key, ct.mask@, ct.body@)[i] - ternary_encode_spec(pt[i])),
            ),
    ensures
        Seq::new(key.len() as nat, |i: int| ternary_decode_spec(phase(key, ct.mask@, ct.body@)[i])) == pt,
{
    let ph = phase(key, ct.mask@, ct.body@);
    let w = crate::poly::word_modulus();
    crate::codec::lemma_delta_bounds(2);
    vstd::arithmetic::power2::lemma2_to64();
    let d = crate::codec::delta_of(2) as int;
    assert(d * 4 == w);
    assert forall|i: int| 0 <= i < pt.len() implies #[trigger] ternary_decode_spec(ph[i]) == pt[i] by {
        let vv: u64 = if pt[i] == u64::MAX {
            3
        } else {
            pt[i]
        };
        let enc = ternary_encode_spec(pt[i]);
        assert(enc == crate::codec::encode_spec(2, vv)) by {
            if pt[i] == u64::MAX {
                assert(u64::MAX * d == 3 * d + (d - 1) * w) by (nonlinear_arith)
                    requires
                        d * 4 == w,
                        u64::MAX == w - 1,
                ;
                vstd::arithmetic::div_mod::lemma_mod_multiples_vanish(d - 1, 3 * d, w);
            }
        }
        let n = wrap(ph[i] - enc);
        assert(ternary_noise(n));
        let e = crate::noise::signed(n);
        assert(-1 <= e <= 1);
        crate::noise::lemma_signed_mod(n);
        crate::ring::lemma_mod_sub(ph[i] as int, enc as int);
        crate::ring::lemma_cong_add(enc as int, enc as int, e, ph[i] - enc);
        assert(wrap(enc + e) == ph[i]) by {
            lemma_wrap_small(ph[i] as int);
        }
        crate::noise::lemma_decode_signed(2, vv, e);
    }
    assert(Seq::new(key.len() as nat, |i: int| ternary_decode_spec(ph[i])) =~= pt);
}

/// The phase of a sum of ciphertexts is the sum of their phases: adding
/// ciphertexts adds the plaintexts they encrypt, and their noises.
pub proof fn lemma_phase_of_sum(
    key: Seq<u64>,
    mask1: Seq<u64>,
    body1: Seq<u64>,
    mask2: Seq<u64>,
    body2: Seq<u64>,
)
    requires
        mask1.len() == key.len(),
        body1.len() == key.len(),
        mask2.len() == key.len(),
        body2.len() == key.len(),
    ensures
        phase(key, seq_add(mask1, mask2), seq_add(body1, body2)) == seq_add(
            phase(key, mask1, body1),
            phase(key, mask2, body2),
        ),
{
    crate::poly::lemma_negacyclic_add_left(mask1, mask2, key);
    let p1 = negacyclic(mask1, key);
    let p2 = negacyclic(mask2, key);
    assert forall|i: int| 0 <= i < key.len() implies #[trigger] phase(
        key,
        seq_add(mask1, mask2),
        seq_add(body1, body2),
    )[i] == seq_add(phase(key, mask1, body1), phase(key, mask2, body2))[i] by {
        let b1 = body1[i] as int;
        let b2 = body2[i] as int;
        let q1 = p1[i] as int;
        let q2 = p2[i] as int;
        // wrap(wrap(b1 + b2) - wrap(q1 + q2)) == wrap(wrap(b1 - q1) + wrap(b2 - q2))
        lemma_wrap_sub(b1 + b2, wrap(q1 + q2) as int);
        lemma_wrap_sub(q1 + q2, b1 + b2);
        lemma_wrap_add(b1 - q1, wrap(b2 - q2) as int);
        lemma_wrap_add(b2 - q2, b1 - q1);
        lemma_wrap_neg(q1 + q2);
        lemma_wrap_add(-(q1 + q2), b1 + b2);
        lemma_wrap_add(-wrap(q1 + q2), b1 + b2);
        assert(b1 + b2 - (q1 + q2) == b1 - q1 + (b2 - q2));
    }
    assert(phase(key, seq_add(mask1, mask2), seq_add(body1, body2)) =~= seq_add(
        phase(key, mask1, body1),
        phase(key, mask2, body2),
    ));
}


/// With the native modulus, every row of `ct` has a phase equal to the row
/// message of a constant GGSW encryption of `m`, up to a binary noise.
pub open spec fn rgsw_encrypts_constant(key: Seq<u64>, ct: RGSWCiphertext, m: u64) -> bool {
    forall|r: int, i: int|
        0 <= r < 2 * ct.level_count && 0 <= i < key.len() ==> binary_noise(
            #[trigger] wrap(
                phase(key, ct.row_mask_spec(r), ct.row_body_spec(r))[i] - ggsw_row_message(
                    key,
                    ct.base_log,
                    ct.level_count,
                    m,
                    r,
                )[i],
            ),
        )
}

/// With the native modulus, every row of `ct` has a phase equal to the row
/// plaintext that `encrypt_rgsw` adds for `p` with the gadget base
/// `2^base_log`, up to a binary noise.
pub open spec fn rgsw_encrypts_poly(key: Seq<u64>, ct: RGSWCiphertext, base_log: usize, p: Seq<u64>) -> bool {
    forall|r: int, i: int|
        0 <= r < 2 * ct.level_count && 0 <= i < key.len() ==> binary_noise(
            #[trigger] wrap(
                phase(key, ct.row_mask_spec(r), ct.row_body_spec(r))[i] - rgsw_row_plaintext(
                    key,
                    base_log,
                    p,
                    r,
                )[i],
            ),
        )
}

/// The plaintext row `r` of `encrypt_rgsw` holds for the polynomial `p` with
/// the gadget base `2^base_log`: with `g = 2^(64 - base_log * (r / 2 + 1))`, the
/// mask row holds `-(g p) * key` and the body row holds `g p`.
pub open spec fn rgsw_row_plaintext(key: Seq<u64>, base_log: usize, p: Seq<u64>, r: int) -> Seq<u64> {
    let g = vstd::arithmetic::power2::pow2((64 - base_log * (r / 2 + 1)) as nat);
    let scaled = seq_scale(p, g as u64);
    if r % 2 == 0 {
        seq_neg(negacyclic(scaled, key))
    } else {
        scaled
    }
}

/// `-key`: each binary coefficient multiplied by `-1`.
pub open spec fn neg_key(key: Seq<u64>) -> Seq<u64> {
    Seq::new(key.len(), |i: int| wrap(-key[i]))
}

impl RLWESecretKey {
    /// An RGSW encryption of the constant `pt` in `out`, as `tfhe` makes it.
    pub fn encrypt_constant_rgsw(&self, out: &mut RGSWCiphertext, pt: u64, ctx: &mut Context)
        requires
            self.wf(),
            old(out).wf(),
            old(out).poly_size == self.key.len(),
            valid_modulus(old(out).modulus),
            is_native(old(out).modulus),
        ensures
            final(out).wf(),
            final(out).poly_size == old(out).poly_size,
            final(out).base_log == old(out).base_log,
            final(out).level_count == old(out).level_count,
            final(out).modulus == old(out).modulus,
            final(ctx).same_params(*old(ctx)),
            is_native(old(out).modulus) ==> rgsw_encrypts_constant(self.key@, *final(out), pt),
    {
        let key_slice = self.key.as_slice();
        encrypt_constant_ggsw(
            key_slice,
            &mut out.data,
            out.base_log,
            out.level_count,
            pt,
            out.modulus,
            &mut ctx.encryption_generator,
        );
        proof {
            assert forall|r: int, i: int|
                0 <= r < 2 * out.level_count && 0 <= i < self.key.len() && is_native(out.modulus)
                implies binary_noise(
                #[trigger] wrap(
                    phase(self.key@, out.row_mask_spec(r), out.row_body_spec(r))[i]
                        - ggsw_row_message(self.key@, out.base_log, out.level_count, pt, r)[i],
                ),
            ) by {
                assert(out.row_mask_spec(r) == row_mask(out.data@, self.key.len() as int, r));
                assert(out.row_body_spec(r) == crate::rgsw::row_body(out.data@, self.key.len() as int, r));
                assert(binary_noise(
                    wrap(
                        phase(
                            key_slice@,
                            row_mask(out.data@, key_slice.len() as int, r),
                            crate::rgsw::row_body(out.data@, key_slice.len() as int, r),
                        )[i] - ggsw_row_message(key_slice@, out.base_log, out.level_count, pt, r)[i],
                    ),
                ));
            }
        }
    }

    /// An RGSW encryption of the polynomial `encoded`: a constant encryption
    /// of zero to which the gadget multiples of `encoded` are added, to the
    /// mask of the even rows and to the body of the odd rows, the rows
    /// `2 (l - 1)` and `2 (l - 1) + 1` taking the multiple `2^(64 - base_log * l)`.
    pub fn encrypt_rgsw(&self, out: &mut RGSWCiphertext, encoded: &Vec<u64>, ctx: &mut Context)
        requires
            self.wf(),
            old(out).wf(),
            old(out).poly_size == self.key.len(),
            valid_modulus(old(out).modulus),
            encoded.len() == self.key.len(),
            is_native(old(out).modulus),
            1 <= old(ctx).base_log,
            old(ctx).base_log * old(out).level_count < 64,
        ensures
            final(out).wf(),
            final(out).poly_size == old(out).poly_size,
            final(out).base_log == old(out).base_log,
            final(out).level_count == old(out).level_count,
            final(out).modulus == old(out).modulus,
            final(ctx).same_params(*old(ctx)),
            is_native(old(out).modulus) ==> rgsw_encrypts_poly(
                self.key@,
                *final(out),
                old(ctx).base_log,
                encoded@,
            ),
    {
        self.encrypt_constant_rgsw(out, 0, ctx);
        let ghost zero_enc = *out;
        proof {
            crate::rgsw::lemma_row_in_bounds(out.level_count as int, out.poly_size as int, 0);
        }
        let rows = 2 * out.level_count;
        let n = self.key.len();
        let mut i: usize = 0;
        while i < rows
            invariant
                self.wf(),
                n == self.key.len(),
                rows == 2 * out.level_count,
                i <= rows,
                out.wf(),
                out.poly_size == n,
                out.base_log == zero_enc.base_log,
                out.level_count == zero_enc.level_count,
                out.modulus == zero_enc.modulus,
                encoded.len() == n,
                1 <= ctx.base_log,
                ctx.base_log * out.level_count < 64,
                ctx.same_params(*old(ctx)),
                is_native(out.modulus) ==> rgsw_encrypts_constant(self.key@, zero_enc, 0),
                forall|r: int|
                    i <= r < rows ==> out.row_mask_spec(r) == zero_enc.row_mask_spec(r)
                        && out.row_body_spec(r) == zero_enc.row_body_spec(r),
                is_native(out.modulus) ==> forall|r: int, j: int|
                    0 <= r < i && 0 <= j < n ==> binary_noise(
                        #[trigger] wrap(
                            phase(self.key@, out.row_mask_spec(r), out.row_body_spec(r))[j]
                                - rgsw_row_plaintext(self.key@, ctx.base_log, encoded@, r)[j],
                        ),
                    ),
            decreases rows - i,
        {
            let level = i / 2 + 1;
            proof {
                assert(ctx.base_log * level <= ctx.base_log * out.level_count) by (nonlinear_arith)
                    requires
                        level <= out.level_count,
                        ctx.base_log >= 1,
                ;
                assert(ctx.base_log * level >= 1) by (nonlinear_arith)
                    requires
                        level >= 1,
                        ctx.base_log >= 1,
                ;
            }
            let shift: usize = 64 - ctx.base_log * level;
            let mut buf = encoded.clone();
            let g: u64 = 1u64 << (shift as u64);
            proof {
                vstd::arithmetic::power2::lemma_pow2_strictly_increases(shift as nat, 64);
                vstd::arithmetic::power2::lemma2_to64_rest();
                vstd::bits::lemma_u64_shl_is_mul(1, shift as u64);
            }
            crate::poly::mul_const(&mut buf, g);
            let mut row = out.get_nth_row(i);
            let ghost old_row = row;
            if i % 2 == 0 {
                row.update_mask_with_add(buf.as_slice());
            } else {
                row.update_body_with_add(buf.as_slice());
            }
            let ghost before = *out;
            out.set_nth_row(i, &row);
            proof {
                if is_native(out.modulus) {
                    assert forall|r: int, j: int|
                        0 <= r < i + 1 && 0 <= j < n implies binary_noise(
                        #[trigger] wrap(
                            phase(self.key@, out.row_mask_spec(r), out.row_body_spec(r))[j]
                                - rgsw_row_plaintext(self.key@, ctx.base_log, encoded@, r)[j],
                        ),
                    ) by {
                        if r == i {
                            assert(old_row.mask@ == zero_enc.row_mask_spec(r));
                            assert(old_row.body@ == zero_enc.row_body_spec(r));
                            assert(ggsw_row_message(self.key@, zero_enc.base_log, zero_enc.level_count, 0, r)[j] == 0) by {
                                lemma_wrap_small(0);
                                assert(wrap(-0int) == 0);
                            }
                            assert(binary_noise(
                                wrap(
                                    phase(self.key@, zero_enc.row_mask_spec(r), zero_enc.row_body_spec(r))[j]
                                        - ggsw_row_message(self.key@, zero_enc.base_log, zero_enc.level_count, 0, r)[j],
                                ),
                            ));
                            lemma_rgsw_row_update(
                                self.key@,
                                zero_enc,
                                old_row.mask@,
                                old_row.body@,
                                buf@,
                                r,
                                j,
                                ctx.base_log,
                                encoded@,
                            );
                        } else {
                            assert(out.row_mask_spec(r) == before.row_mask_spec(r));
                            assert(out.row_body_spec(r) == before.row_body_spec(r));
                        }
                    }
                }
            }
            i += 1;
        }
    }

    /// RGSW encryptions of each constant of `v`, with the context's gadget.
    pub fn encrypt_constant_rgsw_vec(&self, v: &[u64], ctx: &mut Context) -> (r: Vec<RGSWCiphertext>)
        requires
            self.wf(),
            old(ctx).wf(),
            old(ctx).poly_size == self.key.len(),
            4 * old(ctx).level_count * old(ctx).poly_size <= usize::MAX,
            is_native(old(ctx).modulus),
        ensures
            r.len() == v.len(),
            forall|k: int|
                0 <= k < v.len() ==> (#[trigger] r@[k]).wf() && r@[k].poly_size == self.key.len()
                    && r@[k].base_log == old(ctx).base_log && r@[k].level_count == old(
                    ctx,
                ).level_count && r@[k].modulus == old(ctx).modulus && (is_native(r@[k].modulus)
                    ==> rgsw_encrypts_constant(self.key@, r@[k], v@[k])),
            final(ctx).same_params(*old(ctx)),
    {
        let mut out: Vec<RGSWCiphertext> = Vec::new();
        let mut k: usize = 0;
        while k < v.len()
            invariant
                self.wf(),
                ctx.wf(),
                ctx.poly_size == self.key.len(),
                ctx.same_params(*old(ctx)),
                4 * ctx.level_count * ctx.poly_size <= usize::MAX,
                is_native(ctx.modulus),
                k <= v.len(),
                out.len() == k,
                forall|k2: int|
                    0 <= k2 < k ==> (#[trigger] out@[k2]).wf() && out@[k2].poly_size == self.key.len()
                        && out@[k2].base_log == old(ctx).base_log && out@[k2].level_count == old(
                        ctx,
                    ).level_count && out@[k2].modulus == old(ctx).modulus && (is_native(
                        out@[k2].modulus,
                    ) ==> rgsw_encrypts_constant(self.key@, out@[k2], v@[k2])),
            decreases v.len() - k,
        {
            proof {
                assert(4 * ctx.level_count <= 4 * ctx.level_count * ctx.poly_size) by (nonlinear_arith)
                    requires
                        ctx.poly_size >= 1,
                ;
            }
            let mut rgsw_ct = RGSWCiphertext::allocate(
                ctx.poly_size,
                ctx.base_log,
                ctx.level_count,
                ctx.modulus,
            );
            self.encrypt_constant_rgsw(&mut rgsw_ct, v[k], ctx);
            out.push(rgsw_ct);
            k += 1;
        }
        out
    }

    /// An RGSW encryption of `-key` under this key, with the context's
    /// `negs` decomposition and the gadget of its `base_log`.
    pub fn neg_gsw(&self, ctx: &mut Context) -> (r: RGSWCiphertext)
        requires
            self.wf(),
            old(ctx).wf(),
            old(ctx).poly_size == self.key.len(),
            4 * old(ctx).negs_level_count * old(ctx).poly_size <= usize::MAX,
            old(ctx).base_log * old(ctx).negs_level_count < 64,
            is_native(old(ctx).modulus),
        ensures
            r.wf(),
            r.poly_size == self.key.len(),
            r.base_log == old(ctx).negs_base_log,
            r.level_count == old(ctx).negs_level_count,
            r.modulus == old(ctx).modulus,
            is_native(r.modulus) ==> rgsw_encrypts_poly(
                self.key@,
                r,
                old(ctx).base_log,
                neg_key(self.key@),
            ),
            final(ctx).same_params(*old(ctx)),
    {
        let n = ctx.plaintext_count();
        let mut neg_sk: Vec<u64> = Vec::new();
        let mut i: usize = 0;
        while i < n
            invariant
                self.wf(),
                n == self.key.len(),
                i <= n,
                neg_sk.len() == i,
                forall|j: int| 0 <= j < i ==> neg_sk@[j] == neg_key(self.key@)[j],
            decreases n - i,
        {
            let y = self.key[i];
            let v = 0u64.wrapping_sub(y);
            proof {
                lemma_wrapping_sub(0, y);
            }
            neg_sk.push(v);
            i += 1;
        }
        assert(neg_sk@ =~= neg_key(self.key@));
        proof {
            assert(4 * ctx.negs_level_count <= 4 * ctx.negs_level_count * ctx.poly_size) by (nonlinear_arith)
                requires
                    ctx.poly_size >= 1,
            ;
        }
        let mut neg_sk_ct = RGSWCiphertext::allocate(
            ctx.poly_size,
            ctx.negs_base_log,
            ctx.negs_level_count,
            ctx.modulus,
        );
        self.encrypt_rgsw(&mut neg_sk_ct, &neg_sk, ctx);
        neg_sk_ct
    }
}

proof fn lemma_rgsw_row_update(
    key: Seq<u64>,
    zero_enc: RGSWCiphertext,
    mask: Seq<u64>,
    body: Seq<u64>,
    buf: Seq<u64>,
    r: int,
    j: int,
    base_log: usize,
    encoded: Seq<u64>,
)
    requires
        mask.len() == key.len(),
        body.len() == key.len(),
        buf == seq_scale(encoded, vstd::arithmetic::power2::pow2((64 - base_log * (r / 2 + 1)) as nat) as u64),
        encoded.len() == key.len(),
        0 <= j < key.len(),
        binary_noise(wrap(phase(key, mask, body)[j] - 0)),
    ensures
        r % 2 == 0 ==> binary_noise(
            wrap(phase(key, seq_add(mask, buf), body)[j] - rgsw_row_plaintext(key, base_log, encoded, r)[j]),
        ),
        r % 2 != 0 ==> binary_noise(
            wrap(phase(key, mask, seq_add(body, buf))[j] - rgsw_row_plaintext(key, base_log, encoded, r)[j]),
        ),
{
    let ph = phase(key, mask, body)[j] as int;
    lemma_wrap_small(ph);
    crate::poly::lemma_negacyclic_add_left(mask, buf, key);
    let pm = negacyclic(mask, key)[j] as int;
    let pb = negacyclic(buf, key)[j] as int;
    let b = body[j] as int;
    if r % 2 == 0 {
        // phase' = b - (pm + pb) = ph - pb ; message = -pb
        lemma_wrap_sub(b, wrap(pm + pb) as int);
        lemma_wrap_sub(pm + pb, b);
        lemma_wrap_sub(b, pm as int);
        lemma_wrap_neg(pb);
        let lhs = wrap(b - wrap(pm + pb));
        assert(lhs == wrap(b - (pm + pb)));
        lemma_wrap_sub(b - (pm + pb), wrap(-pb) as int);
        lemma_wrap_sub(-pb, b - (pm + pb));
        assert(b - (pm + pb) - (-pb) == b - pm);
    } else {
        let bb = buf[j] as int;
        lemma_wrap_add(b, bb);
        lemma_wrap_sub(b + bb, pm);
        lemma_wrap_sub(wrap(b + bb) as int, pm);
        lemma_wrap_sub(b + bb - pm, bb);
        lemma_wrap_small(bb);
        assert(b + bb - pm - bb == b - pm);
    }
}

/// The magnitude of a word read as a signed integer: `x` below `2^63`,
/// `2^64 - x` from `2^63` on.
pub open spec fn signed_abs(x: u64) -> u64 {
    if x < 0x8000_0000_0000_0000 {
        x
    } else {
        wrap(-x)
    }
}

/// The largest signed magnitude among the first `m` words of `s` (`0` when `m == 0`).
pub open spec fn max_signed_abs(s: Seq<u64>, m: int) -> u64
    decreases m,
{
    if m <= 0 {
        0
    } else {
        let prev = max_signed_abs(s, m - 1);
        if signed_abs(s[m - 1]) > prev {
            signed_abs(s[m - 1])
        } else {
            prev
        }
    }
}

/// The largest magnitude of the noise of `ct` with respect to the encoded
/// plaintext `encoded_ptxt`: the decryption minus the plaintext, each
/// coefficient read as a signed integer.
pub fn noise_max(sk: &RLWESecretKey, ct: &RLWECiphertext, encoded_ptxt: &[u64]) -> (r: u64)
    requires
        sk.wf(),
        ct.mask.len() == sk.key.len(),
        ct.body.len() == sk.key.len(),
        encoded_ptxt.len() == sk.key.len(),
        valid_modulus(ct.modulus),
        reduced_under(ct.modulus, sk.key@),
        reduced_under(ct.modulus, ct.mask@),
        reduced_under(ct.modulus, ct.body@),
    ensures
        r == max_signed_abs(
            seq_sub(glwe_decryption(sk.key@, ct.mask@, ct.body@, ct.modulus), encoded_ptxt@),
            sk.key.len() as int,
        ),
        is_native(ct.modulus) ==> r == max_signed_abs(
            seq_sub(phase(sk.key@, ct.mask@, ct.body@), encoded_ptxt@),
            sk.key.len() as int,
        ),
{
    let n = encoded_ptxt.len();
    let mut pt: Vec<u64> = Vec::new();
    let mut i: usize = 0;
    while i < n
        invariant
            i <= n,
            pt.len() == i,
        decreases n - i,
    {
        pt.push(0);
        i += 1;
    }
    sk.decrypt_rlwe(&mut pt, ct);
    slice_sub_assign(&mut pt, encoded_ptxt);
    let mut max_e: u64 = 0;
    let mut j: usize = 0;
    while j < n
        invariant
            j <= n,
            pt.len() == n,
            max_e == max_signed_abs(pt@, j as int),
        decreases n - j,
    {
        let x = pt[j];
        let z = if x < 0x8000_0000_0000_0000u64 {
            x
        } else {
            proof {
                lemma_wrapping_sub(0, x);
            }
            0u64.wrapping_sub(x)
        };
        if z > max_e {
            max_e = z;
        }
        j += 1;
    }
    max_e
}

/// `noise_max` against the ternary decoding of `ptxt`.
pub fn noise_max_ternary(sk: &RLWESecretKey, ct: &RLWECiphertext, ptxt: &[u64]) -> (r: u64)
    requires
        sk.wf(),
        ct.mask.len() == sk.key.len(),
        ct.body.len() == sk.key.len(),
        ptxt.len() == sk.key.len(),
        valid_modulus(ct.modulus),
        reduced_under(ct.modulus, sk.key@),
        reduced_under(ct.modulus, ct.mask@),
        reduced_under(ct.modulus, ct.body@),
    ensures
        r == max_signed_abs(
            seq_sub(
                glwe_decryption(sk.key@, ct.mask@, ct.body@, ct.modulus),
                Seq::new(ptxt.len() as nat, |i: int| ternary_decode_spec(ptxt@[i])),
            ),
            sk.key.len() as int,
        ),
        is_native(ct.modulus) ==> r == max_signed_abs(
            seq_sub(
                phase(sk.key@, ct.mask@, ct.body@),
                Seq::new(ptxt.len() as nat, |i: int| ternary_decode_spec(ptxt@[i])),
            ),
            sk.key.len() as int,
        ),
{
    let mut tmp = vstd::slice::slice_to_vec(ptxt);
    Codec::poly_ternary_decode(&mut tmp);
    noise_max(sk, ct, tmp.as_slice())
}

/// `noise_max` against the plaintext `ptxt` encoded with `codec`.
pub fn noise_max_encoded(sk: &RLWESecretKey, ct: &RLWECiphertext, ptxt: &[u64], codec: &Codec) -> (r: u64)
    requires
        sk.wf(),
        codec.wf(),
        ct.mask.len() == sk.key.len(),
        ct.body.len() == sk.key.len(),
        ptxt.len() == sk.key.len(),
        valid_modulus(ct.modulus),
        reduced_under(ct.modulus, sk.key@),
        reduced_under(ct.modulus, ct.mask@),
        reduced_under(ct.modulus, ct.body@),
    ensures
        r == max_signed_abs(
            seq_sub(
                glwe_decryption(sk.key@, ct.mask@, ct.body@, ct.modulus),
                poly_encode_spec(codec.pt_bits as nat, ptxt@),
            ),
            sk.key.len() as int,
        ),
        is_native(ct.modulus) ==> r == max_signed_abs(
            seq_sub(phase(sk.key@, ct.mask@, ct.body@), poly_encode_spec(codec.pt_bits as nat, ptxt@)),
            sk.key.len() as int,
        ),
{
    let mut tmp = vstd::slice::slice_to_vec(ptxt);
    codec.poly_encode(&mut tmp);
    noise_max(sk, ct, tmp.as_slice())
}

} // verus!
