//! RGSW ciphertexts, stored as `tfhe` lays out a GGSW ciphertext of GLWE
//! size 2: `2 * level_count` rows of RLWE ciphertexts, the rows of the level
//! `level_count` first, in each level a mask row then a body row.
use vstd::prelude::*;

use vstd::arithmetic::power2::pow2;

use crate::backend::{
    closest_representable_spec, decompose, digit_in_range, recompose, recompose_acc, signed_decomposition,
    valid_decomposition,
};
use crate::poly::{negacyclic, seq_add, seq_neg, seq_scale, seq_sub, word_modulus, wrap, zero_poly};
use crate::ring::{
    lemma_cong_add, lemma_cong_sub, lemma_lin_right, lemma_mod_sub, lemma_negacyclic_assoc, lemma_negacyclic_comm,
    lemma_negacyclic_lin,
};
use crate::rlwe::{phase, rgsw_row_plaintext, RLWECiphertext};

verus! {

/// The gadget factor `2^(64 - base_log * level)` of a decomposition level.
pub open spec fn gadget(base_log: usize, level: int) -> u64 {
    pow2((64 - base_log * level) as nat) as u64
}

/// Each coefficient of `p` rounded to the closest value the decomposition
/// represents.
pub open spec fn rounded_poly(base_log: usize, level_count: usize, p: Seq<u64>) -> Seq<u64> {
    Seq::new(p.len(), |i: int| closest_representable_spec(base_log, level_count, p[i]))
}

/// The plaintext that row `r` of a constant GGSW encryption of `m` under
/// `key` holds: with `t = r / 2` the level is `level_count - t` and the factor
/// `g = -m * 2^(64 - base_log * level)`; the mask row holds `g * key` and the
/// body row the constant `-g`.
pub open spec fn ggsw_row_message(
    key: Seq<u64>,
    base_log: usize,
    level_count: usize,
    m: u64,
    r: int,
) -> Seq<u64> {
    let level = level_count - r / 2;
    let g = wrap(-m * vstd::arithmetic::power2::pow2((64 - base_log * level) as nat));
    if r % 2 == 0 {
        seq_scale(key, g)
    } else {
        Seq::new(key.len(), |i: int| if i == 0 { wrap(-g) } else { 0u64 })
    }
}


/// An RGSW ciphertext: `2 * level_count` RLWE rows of size `poly_size`, stored
/// one after the other, each as its mask followed by its body.
#[derive(Clone, Debug)]
pub struct RGSWCiphertext {
    pub data: Vec<u64>,
    pub poly_size: usize,
    pub base_log: usize,
    pub level_count: usize,
    pub modulus: u128,
}

/// The mask of row `r` in the container `data` of rows of size `n`.
pub open spec fn row_mask(data: Seq<u64>, n: int, r: int) -> Seq<u64> {
    data.subrange(2 * r * n, 2 * r * n + n)
}

/// The body of row `r` in the container `data` of rows of size `n`.
pub open spec fn row_body(data: Seq<u64>, n: int, r: int) -> Seq<u64> {
    data.subrange(2 * r * n + n, 2 * r * n + 2 * n)
}

/// The polynomial of the digits of level `level_count - t` of the signed
/// decomposition of each coefficient of `p`.
pub open spec fn digit_poly(base_log: usize, level_count: usize, p: Seq<u64>, t: int) -> Seq<u64> {
    Seq::new(p.len(), |i: int| signed_decomposition(base_log, level_count, p[i])[t])
}

/// The row that pairs with the `t`-th decomposition term (level
/// `level_count - t`) of the mask (`c == 0`) or of the body (`c == 1`): the
/// rows of the level `l` are `2 (l - 1)` and `2 (l - 1) + 1`.
pub open spec fn paired_row(level_count: int, t: int, c: int) -> int {
    2 * (level_count - t - 1) + c
}

impl RGSWCiphertext {
    /// The container holds `2 * level_count` rows of `2 * poly_size` words.
    pub open spec fn wf(&self) -> bool {
        &&& self.poly_size > 0
        &&& valid_decomposition(self.base_log, self.level_count)
        &&& self.data.len() == 4 * self.level_count * self.poly_size
    }

    /// The mask of row `r`.
    pub open spec fn row_mask_spec(&self, r: int) -> Seq<u64> {
        row_mask(self.data@, self.poly_size as int, r)
    }

    /// The body of row `r`.
    pub open spec fn row_body_spec(&self, r: int) -> Seq<u64> {
        row_body(self.data@, self.poly_size as int, r)
    }

    /// An RGSW ciphertext with every coefficient zero.
    pub fn allocate(poly_size: usize, base_log: usize, level_count: usize, modulus: u128) -> (r: Self)
        requires
            4 * level_count <= usize::MAX,
            4 * level_count * poly_size <= usize::MAX,
        ensures
            r.data@ == zero_poly((4 * level_count * poly_size) as nat),
            r.poly_size == poly_size,
            r.base_log == base_log,
            r.level_count == level_count,
            r.modulus == modulus,
    {
        let len = 4 * level_count * poly_size;
        let mut data: Vec<u64> = Vec::new();
        let mut i: usize = 0;
        while i < len
            invariant
                i <= len,
                data@ == zero_poly(i as nat),
            decreases len - i,
        {
            data.push(0);
            i += 1;
            assert(data@ =~= zero_poly(i as nat));
        }
        RGSWCiphertext { data, poly_size, base_log, level_count, modulus }
    }

    /// A copy of row `r` as an RLWE ciphertext.
    pub fn get_nth_row(&self, r: usize) -> (out: RLWECiphertext)
        requires
            self.wf(),
            r < 2 * self.level_count,
        ensures
            out.mask@ == self.row_mask_spec(r as int),
            out.body@ == self.row_body_spec(r as int),
            out.modulus == self.modulus,
            out.mask.len() == self.poly_size,
            out.body.len() == self.poly_size,
            out.wf(),
    {
        let n = self.poly_size;
        proof {
            lemma_row_in_bounds(self.level_count as int, n as int, r as int);
        }
        let start = 2 * r * n;
        let mut mask: Vec<u64> = Vec::new();
        let mut body: Vec<u64> = Vec::new();
        let mut i: usize = 0;
        while i < n
            invariant
                n == self.poly_size,
                i <= n,
                start == 2 * r * n,
                start + 2 * n <= self.data.len(),
                mask.len() == i,
                body.len() == i,
                forall|j: int| 0 <= j < i ==> mask@[j] == self.data@[start + j],
                forall|j: int| 0 <= j < i ==> body@[j] == self.data@[start + n + j],
            decreases n - i,
        {
            mask.push(self.data[start + i]);
            body.push(self.data[start + n + i]);
            i += 1;
        }
        assert(mask@ =~= self.row_mask_spec(r as int));
        assert(body@ =~= self.row_body_spec(r as int));
        RLWECiphertext { mask, body, modulus: self.modulus }
    }

    /// A copy of the last row.
    pub fn get_last_row(&self) -> (out: RLWECiphertext)
        requires
            self.wf(),
        ensures
            out.mask@ == self.row_mask_spec(2 * self.level_count - 1),
            out.body@ == self.row_body_spec(2 * self.level_count - 1),
            out.modulus == self.modulus,
    {
        proof {
            lemma_row_in_bounds(self.level_count as int, self.poly_size as int, 0);
        }
        self.get_nth_row(2 * self.level_count - 1)
    }

    /// Overwrite row `r` with `row`.
    pub fn set_nth_row(&mut self, r: usize, row: &RLWECiphertext)
        requires
            old(self).wf(),
            r < 2 * old(self).level_count,
            row.mask.len() == old(self).poly_size,
            row.body.len() == old(self).poly_size,
        ensures
            final(self).wf(),
            final(self).poly_size == old(self).poly_size,
            final(self).base_log == old(self).base_log,
            final(self).level_count == old(self).level_count,
            final(self).modulus == old(self).modulus,
            final(self).row_mask_spec(r as int) == row.mask@,
            final(self).row_body_spec(r as int) == row.body@,
            forall|r2: int|
                0 <= r2 < 2 * old(self).level_count && r2 != r ==> final(self).row_mask_spec(r2)
                    == old(self).row_mask_spec(r2) && final(self).row_body_spec(r2)
                    == old(self).row_body_spec(r2),
    {
        let n = self.poly_size;
        proof {
            lemma_row_in_bounds(self.level_count as int, n as int, r as int);
        }
        let start = 2 * r * n;
        let mut i: usize = 0;
        while i < n
            invariant
                n == self.poly_size,
                n == row.mask.len(),
                n == row.body.len(),
                i <= n,
                start == 2 * r * n,
                start + 2 * n <= self.data.len(),
                self.data.len() == old(self).data.len(),
                self.poly_size == old(self).poly_size,
                self.base_log == old(self).base_log,
                self.level_count == old(self).level_count,
                self.modulus == old(self).modulus,
                forall|j: int| 0 <= j < i ==> self.data@[start + j] == row.mask@[j],
                forall|j: int| 0 <= j < i ==> self.data@[start + n + j] == row.body@[j],
                forall|k: int|
                    0 <= k < self.data.len() && !(start <= k < start + 2 * n) ==> self.data@[k]
                        == old(self).data@[k],
            decreases n - i,
        {
            self.data.set(start + i, row.mask[i]);
            self.data.set(start + n + i, row.body[i]);
            i += 1;
        }
        proof {
            assert(self.row_mask_spec(r as int) =~= row.mask@);
            assert(self.row_body_spec(r as int) =~= row.body@);
            assert forall|r2: int| 0 <= r2 < 2 * old(self).level_count && r2 != r implies self.row_mask_spec(
                r2,
            ) == old(self).row_mask_spec(r2) && self.row_body_spec(r2) == old(self).row_body_spec(
                r2,
            ) by {
                lemma_row_in_bounds(self.level_count as int, n as int, r2);
                lemma_rows_disjoint(n as int, r as int, r2);
                assert(self.row_mask_spec(r2) =~= old(self).row_mask_spec(r2));
                assert(self.row_body_spec(r2) =~= old(self).row_body_spec(r2));
            }
        }
    }
}

pub proof fn lemma_row_in_bounds(level_count: int, n: int, r: int)
    requires
        0 <= r < 2 * level_count,
        n > 0,
    ensures
        0 <= 2 * r <= 2 * r * n,
        2 * level_count <= 4 * level_count * n,
        2 * r * n + 2 * n <= 4 * level_count * n,
{
    assert(2 * r * n + 2 * n == (2 * r + 2) * n) by (nonlinear_arith);
    assert((2 * r + 2) * n <= (4 * level_count) * n) by (nonlinear_arith)
        requires
            r + 1 <= 2 * level_count,
            n > 0,
    ;
    assert((4 * level_count) * n == 4 * level_count * n) by (nonlinear_arith);
    assert(0 <= 2 * r <= 2 * r * n) by (nonlinear_arith)
        requires
            r >= 0,
            n > 0,
    ;
    assert(2 * level_count <= 4 * level_count * n) by (nonlinear_arith)
        requires
            level_count >= 0,
            n > 0,
    ;
}

proof fn lemma_rows_disjoint(n: int, r1: int, r2: int)
    requires
        n > 0,
        r1 >= 0,
        r2 >= 0,
        r1 != r2,
    ensures
        2 * r2 * n + 2 * n <= 2 * r1 * n || 2 * r1 * n + 2 * n <= 2 * r2 * n,
{
    if r1 < r2 {
        assert(2 * r1 * n + 2 * n <= 2 * r2 * n) by (nonlinear_arith)
            requires
                r1 + 1 <= r2,
                n > 0,
        ;
    } else {
        assert(2 * r2 * n + 2 * n <= 2 * r1 * n) by (nonlinear_arith)
            requires
                r2 + 1 <= r1,
                n > 0,
        ;
    }
}


/// The mask (`body == false`) or the body (`body == true`) of the external
/// product of the RGSW container `data` with `(a, b)` after the first `m`
/// decomposition terms: for the term `t`, the digits of `a` multiply the row
/// `paired_row(level_count, t, 0)` and those of `b` the row
/// `paired_row(level_count, t, 1)`.
pub open spec fn ext_prod_acc(
    data: Seq<u64>,
    n: int,
    base_log: usize,
    level_count: usize,
    a: Seq<u64>,
    b: Seq<u64>,
    m: int,
    body: bool,
) -> Seq<u64>
    decreases m,
{
    if m <= 0 {
        zero_poly(n as nat)
    } else {
        let t = m - 1;
        let ra = paired_row(level_count as int, t, 0);
        let rb = paired_row(level_count as int, t, 1);
        let ca = if body {
            row_body(data, n, ra)
        } else {
            row_mask(data, n, ra)
        };
        let cb = if body {
            row_body(data, n, rb)
        } else {
            row_mask(data, n, rb)
        };
        seq_add(
            seq_add(
                ext_prod_acc(data, n, base_log, level_count, a, b, m - 1, body),
                negacyclic(digit_poly(base_log, level_count, a, t), ca),
            ),
            negacyclic(digit_poly(base_log, level_count, b, t), cb),
        )
    }
}

impl RGSWCiphertext {
    /// The external product of this RGSW ciphertext with the RLWE ciphertext
    /// `c`, written into `out`: the sum over the decomposition levels of the
    /// digits of `c`'s mask times the level's mask row and the digits of `c`'s
    /// body times the level's body row, all products taken exactly.
    pub fn external_product(&self, out: &mut RLWECiphertext, c: &RLWECiphertext)
        requires
            self.wf(),
            c.mask.len() == self.poly_size,
            c.body.len() == self.poly_size,
            old(out).mask.len() == self.poly_size,
            old(out).body.len() == self.poly_size,
        ensures
            final(out).mask@ == ext_prod_acc(
                self.data@,
                self.poly_size as int,
                self.base_log,
                self.level_count,
                c.mask@,
                c.body@,
                self.level_count as int,
                false,
            ),
            final(out).body@ == ext_prod_acc(
                self.data@,
                self.poly_size as int,
                self.base_log,
                self.level_count,
                c.mask@,
                c.body@,
                self.level_count as int,
                true,
            ),
            final(out).mask.len() == self.poly_size,
            final(out).body.len() == self.poly_size,
            final(out).modulus == old(out).modulus,
            forall|key: Seq<u64>, p: Seq<u64>|
                #![trigger ext_prod_phase(self.data@, self.poly_size as int, self.base_log, self.level_count, c.mask@, c.body@, key, p)]
                key.len() == self.poly_size && p.len() == self.poly_size ==> phase(
                    key,
                    final(out).mask@,
                    final(out).body@,
                ) == ext_prod_phase(
                    self.data@,
                    self.poly_size as int,
                    self.base_log,
                    self.level_count,
                    c.mask@,
                    c.body@,
                    key,
                    p,
                ),
            forall|i: int, t: int|
                0 <= i < self.poly_size && 0 <= t < self.level_count ==> #[trigger] digit_in_range(
                    self.base_log,
                    signed_decomposition(self.base_log, self.level_count, c.mask@[i])[t],
                ) && digit_in_range(self.base_log, signed_decomposition(self.base_log, self.level_count, c.body@[i])[t]),
    {
        let n = self.poly_size;
        let lc = self.level_count;
        let bl = self.base_log;
        let da = decompose_all(bl, lc, c.mask.as_slice());
        let db = decompose_all(bl, lc, c.body.as_slice());
        out.clear();
        let mut t: usize = 0;
        while t < lc
            invariant
                self.wf(),
                n == self.poly_size,
                lc == self.level_count,
                bl == self.base_log,
                t <= lc,
                c.mask.len() == n,
                c.body.len() == n,
                out.mask.len() == n,
                out.body.len() == n,
                out.modulus == old(out).modulus,
                decomposed_all(bl, lc, da@, c.mask@),
                decomposed_all(bl, lc, db@, c.body@),
                out.mask@ == ext_prod_acc(self.data@, n as int, bl, lc, c.mask@, c.body@, t as int, false),
                out.body@ == ext_prod_acc(self.data@, n as int, bl, lc, c.mask@, c.body@, t as int, true),
            decreases lc - t,
        {
            let dpa = digits_at(&da, t, bl, lc, c.mask.as_slice());
            let dpb = digits_at(&db, t, bl, lc, c.body.as_slice());
            proof {
                lemma_row_in_bounds(lc as int, n as int, (2 * (lc - t - 1) + 1) as int);
            }
            let ra = 2 * (lc - t - 1);
            let row_a = self.get_nth_row(ra);
            let row_b = self.get_nth_row(ra + 1);
            crate::rlwe::naive_update_with_mul_acc(&mut out.mask, dpa.as_slice(), row_a.mask.as_slice());
            crate::rlwe::naive_update_with_mul_acc(&mut out.mask, dpb.as_slice(), row_b.mask.as_slice());
            crate::rlwe::naive_update_with_mul_acc(&mut out.body, dpa.as_slice(), row_a.body.as_slice());
            crate::rlwe::naive_update_with_mul_acc(&mut out.body, dpb.as_slice(), row_b.body.as_slice());
            proof {
                assert(out.mask@ =~= ext_prod_acc(self.data@, n as int, bl, lc, c.mask@, c.body@, t + 1, false));
                assert(out.body@ =~= ext_prod_acc(self.data@, n as int, bl, lc, c.mask@, c.body@, t + 1, true));
            }
            t += 1;
        }
        proof {
            assert forall|key: Seq<u64>, p: Seq<u64>|
                key.len() == n && p.len() == n implies phase(key, out.mask@, out.body@) == #[trigger] ext_prod_phase(
                self.data@,
                n as int,
                bl,
                lc,
                c.mask@,
                c.body@,
                key,
                p,
            ) by {
                assert forall|i: int| 0 <= i < n implies #[trigger] recompose(
                    bl,
                    lc,
                    signed_decomposition(bl, lc, c.mask@[i]),
                ) == closest_representable_spec(bl, lc, c.mask@[i]) by {
                    assert(da@[i]@.len() == lc);
                }
                assert forall|i: int| 0 <= i < n implies #[trigger] recompose(
                    bl,
                    lc,
                    signed_decomposition(bl, lc, c.body@[i]),
                ) == closest_representable_spec(bl, lc, c.body@[i]) by {
                    assert(db@[i]@.len() == lc);
                }
                lemma_ext_prod_phase(self.data@, n as int, bl, lc, c.mask@, c.body@, key, p);
            }
            assert forall|i: int, t: int| 0 <= i < n && 0 <= t < lc implies #[trigger] digit_in_range(
                bl,
                signed_decomposition(bl, lc, c.mask@[i])[t],
            ) && digit_in_range(bl, signed_decomposition(bl, lc, c.body@[i])[t]) by {
                assert(da@[i]@.len() == lc);
                assert(db@[i]@.len() == lc);
            }
        }
    }
}

/// `ds[i]` holds the decomposition terms of `p[i]`.
pub open spec fn decomposed_all(
    base_log: usize,
    level_count: usize,
    ds: Seq<Vec<(usize, u64)>>,
    p: Seq<u64>,
) -> bool {
    &&& ds.len() == p.len()
    &&& forall|i: int|
        0 <= i < p.len() ==> (#[trigger] ds[i])@.len() == level_count && ds[i]@.map_values(
            |q: (usize, u64)| q.1,
        ) == signed_decomposition(base_log, level_count, p[i]) && recompose(
            base_log,
            level_count,
            signed_decomposition(base_log, level_count, p[i]),
        ) == closest_representable_spec(base_log, level_count, p[i]) && forall|t: int|
            0 <= t < level_count ==> #[trigger] digit_in_range(
                base_log,
                signed_decomposition(base_log, level_count, p[i])[t],
            )
}

pub(crate) fn decompose_all(base_log: usize, level_count: usize, p: &[u64]) -> (ds: Vec<Vec<(usize, u64)>>)
    requires
        valid_decomposition(base_log, level_count),
    ensures
        decomposed_all(base_log, level_count, ds@, p@),
{
    let mut ds: Vec<Vec<(usize, u64)>> = Vec::new();
    let mut i: usize = 0;
    while i < p.len()
        invariant
            valid_decomposition(base_log, level_count),
            i <= p.len(),
            ds.len() == i,
            forall|j: int|
                0 <= j < i ==> (#[trigger] ds@[j])@.len() == level_count && ds@[j]@.map_values(
                    |q: (usize, u64)| q.1,
                ) == signed_decomposition(base_log, level_count, p@[j]) && recompose(
                    base_log,
                    level_count,
                    signed_decomposition(base_log, level_count, p@[j]),
                ) == closest_representable_spec(base_log, level_count, p@[j]) && forall|t: int|
                    0 <= t < level_count ==> #[trigger] digit_in_range(
                        base_log,
                        signed_decomposition(base_log, level_count, p@[j])[t],
                    ),
        decreases p.len() - i,
    {
        let terms = decompose(base_log, level_count, p[i]);
        proof {
            assert forall|t: int| 0 <= t < level_count implies #[trigger] digit_in_range(
                base_log,
                signed_decomposition(base_log, level_count, p@[i as int])[t],
            ) by {
                assert(terms@.map_values(|q: (usize, u64)| q.1)[t] == terms@[t].1);
            }
        }
        ds.push(terms);
        i += 1;
    }
    ds
}

pub(crate) fn digits_at(
    ds: &Vec<Vec<(usize, u64)>>,
    t: usize,
    base_log: usize,
    level_count: usize,
    p: &[u64],
) -> (r: Vec<u64>)
    requires
        decomposed_all(base_log, level_count, ds@, p@),
        t < level_count,
    ensures
        r@ == digit_poly(base_log, level_count, p@, t as int),
{
    let mut r: Vec<u64> = Vec::new();
    let mut i: usize = 0;
    while i < ds.len()
        invariant
            decomposed_all(base_log, level_count, ds@, p@),
            t < level_count,
            i <= ds.len(),
            r.len() == i,
            forall|j: int|
                0 <= j < i ==> r@[j] == signed_decomposition(base_log, level_count, p@[j])[t as int],
        decreases ds.len() - i,
    {
        let row = &ds[i];
        proof {
            assert(row@.map_values(|q: (usize, u64)| q.1)[t as int] == row@[t as int].1);
        }
        r.push(row[t].1);
        i += 1;
    }
    assert(r@ =~= digit_poly(base_log, level_count, p@, t as int));
    r
}


/// The value that the first `m` digits of each coefficient of `d` stand for.
pub open spec fn recomp_seq(base_log: usize, level_count: usize, d: Seq<u64>, m: int) -> Seq<u64> {
    Seq::new(
        d.len(),
        |i: int| wrap(recompose_acc(base_log, level_count, signed_decomposition(base_log, level_count, d[i]), m)),
    )
}

/// The factor of the level `level_count - t` fits in a word.
pub proof fn lemma_gadget_exact(base_log: usize, level_count: usize, t: int)
    requires
        valid_decomposition(base_log, level_count),
        0 <= t < level_count,
    ensures
        gadget(base_log, level_count - t) as int == pow2((64 - base_log * (level_count - t)) as nat),
        64 - base_log * (level_count - t) > 0,
{
    let l = level_count - t;
    assert(1 <= base_log * l <= base_log * level_count) by (nonlinear_arith)
        requires
            base_log >= 1,
            1 <= l <= level_count,
    ;
    let e = (64 - base_log * l) as nat;
    vstd::arithmetic::power2::lemma_pow2_strictly_increases(e, 64);
    vstd::arithmetic::power2::lemma2_to64();
    vstd::arithmetic::power2::lemma2_to64_rest();
}


/// One more digit of the recomposition adds the digit polynomial times its
/// gadget factor, modulo `2^64`.
pub proof fn lemma_recomp_step(base_log: usize, level_count: usize, d: Seq<u64>, m: int)
    requires
        valid_decomposition(base_log, level_count),
        1 <= m <= level_count,
    ensures
        forall|i: int|
            0 <= i < d.len() ==> #[trigger] (recomp_seq(base_log, level_count, d, m)[i] as int) % word_modulus() == (1
                * recomp_seq(base_log, level_count, d, m - 1)[i] + gadget(base_log, level_count - (m - 1))
                * digit_poly(base_log, level_count, d, m - 1)[i]) % word_modulus(),
{
    let t = m - 1;
    let w = word_modulus();
    lemma_gadget_exact(base_log, level_count, t);
    let g = gadget(base_log, level_count - t);
    let rm = recomp_seq(base_log, level_count, d, m);
    let rp = recomp_seq(base_log, level_count, d, m - 1);
    let dt = digit_poly(base_log, level_count, d, t);
    assert forall|i: int| 0 <= i < d.len() implies #[trigger] (rm[i] as int) % w == (1 * rp[i] + g * dt[i]) % w by {
        let digs = signed_decomposition(base_log, level_count, d[i]);
        let am = recompose_acc(base_log, level_count, digs, m);
        let ap = recompose_acc(base_log, level_count, digs, m - 1);
        assert(am == ap + digs[t] * pow2((64 - base_log * (level_count - t)) as nat));
        vstd::arithmetic::mul::lemma_mul_is_commutative(digs[t] as int, g as int);
        vstd::arithmetic::div_mod::lemma_mod_twice(am, w);
        vstd::arithmetic::div_mod::lemma_mod_twice(ap, w);
        lemma_cong_add(rp[i] as int, ap, g * dt[i], g * dt[i]);
    }
}


/// The phase under `key` of row `r` of the container `data` of rows of size `n`.
pub open spec fn row_phase(data: Seq<u64>, n: int, key: Seq<u64>, r: int) -> Seq<u64> {
    phase(key, row_mask(data, n, r), row_body(data, n, r))
}

/// The error of row `r` read as a row of an RGSW encryption of `p` under
/// `key` with the gadget base `2^base_log`: its phase minus the row plaintext.
pub open spec fn row_error(data: Seq<u64>, n: int, key: Seq<u64>, base_log: usize, p: Seq<u64>, r: int) -> Seq<u64> {
    seq_sub(row_phase(data, n, key, r), rgsw_row_plaintext(key, base_log, p, r))
}

/// Coefficient `k` of `sum_{t < m} D_t(a) * phase(row_a_t) + D_t(b) * phase(row_b_t)`.
pub open spec fn ext_phase_acc(
    data: Seq<u64>,
    n: int,
    base_log: usize,
    level_count: usize,
    a: Seq<u64>,
    b: Seq<u64>,
    key: Seq<u64>,
    m: int,
    k: int,
) -> int
    decreases m,
{
    if m <= 0 {
        0
    } else {
        let t = m - 1;
        ext_phase_acc(data, n, base_log, level_count, a, b, key, m - 1, k) + negacyclic(
            digit_poly(base_log, level_count, a, t),
            row_phase(data, n, key, paired_row(level_count as int, t, 0)),
        )[k] + negacyclic(
            digit_poly(base_log, level_count, b, t),
            row_phase(data, n, key, paired_row(level_count as int, t, 1)),
        )[k]
    }
}

/// Coefficient `k` of `sum_{t < m} D_t(a) * E(row_a_t) + D_t(b) * E(row_b_t)`,
/// the digits times the errors of the rows they multiply.
pub open spec fn ext_noise_acc(
    data: Seq<u64>,
    n: int,
    base_log: usize,
    level_count: usize,
    a: Seq<u64>,
    b: Seq<u64>,
    key: Seq<u64>,
    p: Seq<u64>,
    m: int,
    k: int,
) -> int
    decreases m,
{
    if m <= 0 {
        0
    } else {
        let t = m - 1;
        ext_noise_acc(data, n, base_log, level_count, a, b, key, p, m - 1, k) + negacyclic(
            digit_poly(base_log, level_count, a, t),
            row_error(data, n, key, base_log, p, paired_row(level_count as int, t, 0)),
        )[k] + negacyclic(
            digit_poly(base_log, level_count, b, t),
            row_error(data, n, key, base_log, p, paired_row(level_count as int, t, 1)),
        )[k]
    }
}

/// The phase under `key` of the external product of the RGSW container
/// `data` with `(a, b)`, when the rows are read as an encryption of `p`:
/// `p * phase(key, R(a), R(b))` plus the digits times the row errors, with
/// `R` the rounding to the closest representable values.
pub open spec fn ext_prod_phase(
    data: Seq<u64>,
    n: int,
    base_log: usize,
    level_count: usize,
    a: Seq<u64>,
    b: Seq<u64>,
    key: Seq<u64>,
    p: Seq<u64>,
) -> Seq<u64> {
    let ra = rounded_poly(base_log, level_count, a);
    let rb = rounded_poly(base_log, level_count, b);
    Seq::new(
        n as nat,
        |k: int|
            wrap(
                negacyclic(p, phase(key, ra, rb))[k] + ext_noise_acc(
                    data,
                    n,
                    base_log,
                    level_count,
                    a,
                    b,
                    key,
                    p,
                    level_count as int,
                    k,
                ),
            ),
    )
}

/// A partial external product of size `n` has `n` coefficients.
pub proof fn lemma_ext_prod_acc_len(
    data: Seq<u64>,
    n: int,
    base_log: usize,
    level_count: usize,
    a: Seq<u64>,
    b: Seq<u64>,
    m: int,
    body: bool,
)
    requires
        n >= 0,
    ensures
        ext_prod_acc(data, n, base_log, level_count, a, b, m, body).len() == n,
    decreases m,
{
    if m > 0 {
        lemma_ext_prod_acc_len(data, n, base_log, level_count, a, b, m - 1, body);
    }
}

/// The phase of the partial external product after `m` terms is the sum of
/// the digits times the phases of the rows they multiply.
proof fn lemma_ext_phase_steps(
    data: Seq<u64>,
    n: int,
    base_log: usize,
    level_count: usize,
    a: Seq<u64>,
    b: Seq<u64>,
    key: Seq<u64>,
    m: int,
)
    requires
        n > 0,
        0 <= m <= level_count,
        data.len() == 4 * level_count * n,
        a.len() == n,
        b.len() == n,
        key.len() == n,
    ensures
        forall|k: int|
            0 <= k < n ==> (#[trigger] phase(
                key,
                ext_prod_acc(data, n, base_log, level_count, a, b, m, false),
                ext_prod_acc(data, n, base_log, level_count, a, b, m, true),
            )[k] as int) % word_modulus() == ext_phase_acc(data, n, base_log, level_count, a, b, key, m, k)
                % word_modulus(),
    decreases m,
{
    let w = word_modulus();
    let mm = ext_prod_acc(data, n, base_log, level_count, a, b, m, false);
    let bb = ext_prod_acc(data, n, base_log, level_count, a, b, m, true);
    lemma_ext_prod_acc_len(data, n, base_log, level_count, a, b, m, false);
    lemma_ext_prod_acc_len(data, n, base_log, level_count, a, b, m, true);
    if m == 0 {
        let z = zero_poly(n as nat);
        lemma_negacyclic_lin(z, z, z, key, 0, 0);
        assert forall|k: int| 0 <= k < n implies (#[trigger] phase(key, mm, bb)[k] as int) % w == ext_phase_acc(
            data,
            n,
            base_log,
            level_count,
            a,
            b,
            key,
            m,
            k,
        ) % w by {
            lemma_mod_sub(0, negacyclic(z, key)[k] as int);
            lemma_cong_sub(0, 0, negacyclic(z, key)[k] as int, 0);
        }
    } else {
        lemma_ext_phase_steps(data, n, base_log, level_count, a, b, key, m - 1);
        let t = m - 1;
        let ra = paired_row(level_count as int, t, 0);
        let rb = paired_row(level_count as int, t, 1);
        lemma_row_in_bounds(level_count as int, n, ra);
        lemma_row_in_bounds(level_count as int, n, rb);
        let mp = ext_prod_acc(data, n, base_log, level_count, a, b, m - 1, false);
        let bp = ext_prod_acc(data, n, base_log, level_count, a, b, m - 1, true);
        lemma_ext_prod_acc_len(data, n, base_log, level_count, a, b, m - 1, false);
        lemma_ext_prod_acc_len(data, n, base_log, level_count, a, b, m - 1, true);
        let da = digit_poly(base_log, level_count, a, t);
        let db = digit_poly(base_log, level_count, b, t);
        let ma = row_mask(data, n, ra);
        let mb = row_mask(data, n, rb);
        let ba = row_body(data, n, ra);
        let bbr = row_body(data, n, rb);
        let xa = negacyclic(da, ma);
        let xb = negacyclic(db, mb);
        let m1 = seq_add(mp, xa);
        assert(mm == seq_add(m1, xb));
        assert(bb == seq_add(seq_add(bp, negacyclic(da, ba)), negacyclic(db, bbr)));
        // the mask times the key is linear in the mask
        assert forall|i: int| 0 <= i < n implies #[trigger] (m1[i] as int) % w == (1 * mp[i] + 1 * xa[i]) % w by {
            lemma_mod_sub(mp[i] + xa[i], 0);
        }
        assert forall|i: int| 0 <= i < n implies #[trigger] (mm[i] as int) % w == (1 * m1[i] + 1 * xb[i]) % w by {
            lemma_mod_sub(m1[i] + xb[i], 0);
        }
        lemma_negacyclic_lin(m1, mp, xa, key, 1, 1);
        lemma_negacyclic_lin(mm, m1, xb, key, 1, 1);
        lemma_negacyclic_assoc(da, ma, key);
        lemma_negacyclic_assoc(db, mb, key);
        // the digits times a row phase
        let pa = row_phase(data, n, key, ra);
        let pb = row_phase(data, n, key, rb);
        let ka = negacyclic(ma, key);
        let kb = negacyclic(mb, key);
        assert forall|i: int| 0 <= i < n implies #[trigger] (pa[i] as int) % w == (1 * ba[i] + (-1) * ka[i]) % w by {
            lemma_mod_sub(ba[i] as int, ka[i] as int);
        }
        assert forall|i: int| 0 <= i < n implies #[trigger] (pb[i] as int) % w == (1 * bbr[i] + (-1) * kb[i]) % w by {
            lemma_mod_sub(bbr[i] as int, kb[i] as int);
        }
        lemma_lin_right(da, pa, ba, ka, 1, -1);
        lemma_lin_right(db, pb, bbr, kb, 1, -1);
        assert forall|k: int| 0 <= k < n implies (#[trigger] phase(key, mm, bb)[k] as int) % w == ext_phase_acc(
            data,
            n,
            base_log,
            level_count,
            a,
            b,
            key,
            m,
            k,
        ) % w by {
            let u = seq_add(bp, negacyclic(da, ba));
            lemma_mod_sub(u[k] + negacyclic(db, bbr)[k], 0);
            lemma_mod_sub(bp[k] + negacyclic(da, ba)[k], 0);
            lemma_mod_sub(bp[k] as int, negacyclic(mp, key)[k] as int);
            lemma_mod_sub(bb[k] as int, negacyclic(mm, key)[k] as int);
            lemma_ext_step_arith(
                bb[k] as int,
                bp[k] as int,
                negacyclic(da, ba)[k] as int,
                negacyclic(db, bbr)[k] as int,
                u[k] as int,
                negacyclic(mp, key)[k] as int,
                negacyclic(m1, key)[k] as int,
                negacyclic(mm, key)[k] as int,
                negacyclic(xa, key)[k] as int,
                negacyclic(xb, key)[k] as int,
                negacyclic(da, pa)[k] as int,
                negacyclic(db, pb)[k] as int,
                ext_phase_acc(data, n, base_log, level_count, a, b, key, m - 1, k),
                phase(key, mm, bb)[k] as int,
                phase(key, mp, bp)[k] as int,
            );
        }
    }
}


proof fn lemma_ext_step_arith(
    bbk: int,
    b1: int,
    dba: int,
    dbb: int,
    u: int,
    s0: int,
    s1: int,
    s2: int,
    xak: int,
    xbk: int,
    qa: int,
    qb: int,
    acc: int,
    ph: int,
    php: int,
)
    requires
        bbk % word_modulus() == (u + dbb) % word_modulus(),
        u % word_modulus() == (b1 + dba) % word_modulus(),
        s1 % word_modulus() == (1 * s0 + 1 * xak) % word_modulus(),
        s2 % word_modulus() == (1 * s1 + 1 * xbk) % word_modulus(),
        ph % word_modulus() == (bbk - s2) % word_modulus(),
        php % word_modulus() == (b1 - s0) % word_modulus(),
        php % word_modulus() == acc % word_modulus(),
        qa % word_modulus() == (1 * dba + (-1) * xak) % word_modulus(),
        qb % word_modulus() == (1 * dbb + (-1) * xbk) % word_modulus(),
    ensures
        ph % word_modulus() == (acc + qa + qb) % word_modulus(),
{
    lemma_cong_add(u, b1 + dba, dbb, dbb);
    lemma_cong_add(s1, s0 + xak, xbk, xbk);
    lemma_cong_sub(bbk, b1 + dba + dbb, s2, s0 + xak + xbk);
    assert(b1 + dba + dbb - (s0 + xak + xbk) == (b1 - s0) + (dba - xak) + (dbb - xbk));
    lemma_cong_add(b1 - s0, acc, dba - xak, qa);
    lemma_cong_add(b1 - s0 + (dba - xak), acc + qa, dbb - xbk, qb);
}


proof fn lemma_ext_recomp_arith(
    acc_p: int,
    qa: int,
    qb: int,
    rbp: int,
    rap: int,
    np: int,
    ea: int,
    pla: int,
    ska: int,
    daps: int,
    eb: int,
    plb: int,
    dbp: int,
    ram: int,
    rbm: int,
    g: int,
)
    requires
        acc_p % word_modulus() == (rbp - rap + np) % word_modulus(),
        qa % word_modulus() == (1 * ea + 1 * pla) % word_modulus(),
        pla % word_modulus() == ((-1) * ska + 0 * ska) % word_modulus(),
        ska % word_modulus() == (g * daps + 0 * daps) % word_modulus(),
        qb % word_modulus() == (1 * eb + 1 * plb) % word_modulus(),
        plb % word_modulus() == (g * dbp + 0 * dbp) % word_modulus(),
        ram % word_modulus() == (1 * rap + g * daps) % word_modulus(),
        rbm % word_modulus() == (1 * rbp + g * dbp) % word_modulus(),
    ensures
        (acc_p + qa + qb) % word_modulus() == (rbm - ram + (np + ea + eb)) % word_modulus(),
{
    // pla = -g * daps
    lemma_cong_sub(0, 0, ska, g * daps);
    assert(0 - ska == (-1) * ska + 0 * ska);
    lemma_cong_add(ea, ea, pla, 0 - g * daps);
    lemma_cong_add(eb, eb, plb, g * dbp);
    lemma_cong_add(acc_p, rbp - rap + np, qa, ea + (0 - g * daps));
    lemma_cong_add(acc_p + qa, rbp - rap + np + (ea + (0 - g * daps)), qb, eb + g * dbp);
    lemma_cong_sub(rbm, rbp + g * dbp, ram, rap + g * daps);
    lemma_cong_add(rbm - ram, rbp + g * dbp - (rap + g * daps), np + ea + eb, np + ea + eb);
    assert(rbp - rap + np + (ea + (0 - g * daps)) + (eb + g * dbp) == rbp + g * dbp - (rap + g * daps) + (np + ea
        + eb));
}

/// The sum of the digits times the row phases is, modulo `2^64`, the value
/// of the first `m` digits of `b` times `p`, minus that of `a` times `p * key`,
/// plus the digits times the row errors.
proof fn lemma_ext_phase_recomp(
    data: Seq<u64>,
    n: int,
    base_log: usize,
    level_count: usize,
    a: Seq<u64>,
    b: Seq<u64>,
    key: Seq<u64>,
    p: Seq<u64>,
    m: int,
)
    requires
        valid_decomposition(base_log, level_count),
        n > 0,
        0 <= m <= level_count,
        data.len() == 4 * level_count * n,
        a.len() == n,
        b.len() == n,
        key.len() == n,
        p.len() == n,
    ensures
        forall|k: int|
            0 <= k < n ==> #[trigger] ext_phase_acc(data, n, base_log, level_count, a, b, key, m, k) % word_modulus()
                == (negacyclic(recomp_seq(base_log, level_count, b, m), p)[k] - negacyclic(
                recomp_seq(base_log, level_count, a, m),
                negacyclic(p, key),
            )[k] + ext_noise_acc(data, n, base_log, level_count, a, b, key, p, m, k)) % word_modulus(),
    decreases m,
{
    let w = word_modulus();
    let ps = negacyclic(p, key);
    if m == 0 {
        let za = recomp_seq(base_log, level_count, a, 0);
        let zb = recomp_seq(base_log, level_count, b, 0);
        assert(za =~= zero_poly(n as nat));
        assert(zb =~= zero_poly(n as nat));
        lemma_negacyclic_lin(zb, zb, zb, p, 0, 0);
        lemma_negacyclic_lin(za, za, za, ps, 0, 0);
        assert forall|k: int| 0 <= k < n implies #[trigger] ext_phase_acc(
            data,
            n,
            base_log,
            level_count,
            a,
            b,
            key,
            m,
            k,
        ) % w == (negacyclic(zb, p)[k] - negacyclic(za, ps)[k] + ext_noise_acc(
            data,
            n,
            base_log,
            level_count,
            a,
            b,
            key,
            p,
            m,
            k,
        )) % w by {
            lemma_cong_sub(negacyclic(zb, p)[k] as int, 0, negacyclic(za, ps)[k] as int, 0);
        }
    } else {
        lemma_ext_phase_recomp(data, n, base_log, level_count, a, b, key, p, m - 1);
        let t = m - 1;
        let rra = paired_row(level_count as int, t, 0);
        let rrb = paired_row(level_count as int, t, 1);
        lemma_row_in_bounds(level_count as int, n, rra);
        lemma_row_in_bounds(level_count as int, n, rrb);
        lemma_gadget_exact(base_log, level_count, t);
        let g = gadget(base_log, level_count - t);
        assert(rra / 2 == level_count - t - 1 && rra % 2 == 0);
        assert(rrb / 2 == level_count - t - 1 && rrb % 2 == 1);
        let da = digit_poly(base_log, level_count, a, t);
        let db = digit_poly(base_log, level_count, b, t);
        let pa = row_phase(data, n, key, rra);
        let pb = row_phase(data, n, key, rrb);
        let sc = seq_scale(p, g);
        let sk = negacyclic(sc, key);
        let pla = rgsw_row_plaintext(key, base_log, p, rra);
        let plb = rgsw_row_plaintext(key, base_log, p, rrb);
        assert(pla == seq_neg(sk));
        assert(plb == sc);
        let ea = row_error(data, n, key, base_log, p, rra);
        let eb = row_error(data, n, key, base_log, p, rrb);
        // a row phase is its error plus its plaintext
        assert forall|i: int| 0 <= i < n implies #[trigger] (pa[i] as int) % w == (1 * ea[i] + 1 * pla[i]) % w by {
            lemma_mod_sub(pa[i] as int, pla[i] as int);
            lemma_mod_sub(pla[i] as int, 0);
            lemma_cong_add(ea[i] as int, pa[i] - pla[i], pla[i] as int, pla[i] as int);
        }
        assert forall|i: int| 0 <= i < n implies #[trigger] (pb[i] as int) % w == (1 * eb[i] + 1 * plb[i]) % w by {
            lemma_mod_sub(pb[i] as int, plb[i] as int);
            lemma_mod_sub(plb[i] as int, 0);
            lemma_cong_add(eb[i] as int, pb[i] - plb[i], plb[i] as int, plb[i] as int);
        }
        lemma_lin_right(da, pa, ea, pla, 1, 1);
        lemma_lin_right(db, pb, eb, plb, 1, 1);
        assert forall|i: int| 0 <= i < n implies #[trigger] (pla[i] as int) % w == ((-1) * sk[i] + 0 * sk[i]) % w by {
            lemma_mod_sub(0, sk[i] as int);
        }
        lemma_lin_right(da, pla, sk, sk, -1, 0);
        assert forall|i: int| 0 <= i < n implies #[trigger] (sc[i] as int) % w == (g * p[i] + 0 * p[i]) % w by {
            vstd::arithmetic::div_mod::lemma_mod_twice(p[i] * g, w);
            vstd::arithmetic::mul::lemma_mul_is_commutative(p[i] as int, g as int);
        }
        lemma_negacyclic_lin(sc, p, p, key, g as int, 0);
        lemma_lin_right(da, sk, ps, ps, g as int, 0);
        lemma_lin_right(db, sc, p, p, g as int, 0);
        lemma_recomp_step(base_log, level_count, a, m);
        lemma_recomp_step(base_log, level_count, b, m);
        let ram = recomp_seq(base_log, level_count, a, m);
        let rap = recomp_seq(base_log, level_count, a, m - 1);
        let rbm = recomp_seq(base_log, level_count, b, m);
        let rbp = recomp_seq(base_log, level_count, b, m - 1);
        lemma_negacyclic_lin(ram, rap, da, ps, 1, g as int);
        lemma_negacyclic_lin(rbm, rbp, db, p, 1, g as int);
        assert forall|k: int| 0 <= k < n implies #[trigger] ext_phase_acc(
            data,
            n,
            base_log,
            level_count,
            a,
            b,
            key,
            m,
            k,
        ) % w == (negacyclic(rbm, p)[k] - negacyclic(ram, ps)[k] + ext_noise_acc(
            data,
            n,
            base_log,
            level_count,
            a,
            b,
            key,
            p,
            m,
            k,
        )) % w by {
            lemma_ext_recomp_arith(
                ext_phase_acc(data, n, base_log, level_count, a, b, key, m - 1, k),
                negacyclic(da, pa)[k] as int,
                negacyclic(db, pb)[k] as int,
                negacyclic(rbp, p)[k] as int,
                negacyclic(rap, ps)[k] as int,
                ext_noise_acc(data, n, base_log, level_count, a, b, key, p, m - 1, k),
                negacyclic(da, ea)[k] as int,
                negacyclic(da, pla)[k] as int,
                negacyclic(da, sk)[k] as int,
                negacyclic(da, ps)[k] as int,
                negacyclic(db, eb)[k] as int,
                negacyclic(db, plb)[k] as int,
                negacyclic(db, p)[k] as int,
                negacyclic(ram, ps)[k] as int,
                negacyclic(rbm, p)[k] as int,
                g as int,
            );
        }
    }
}


/// The phase of the external product of `data` with `(a, b)` is
/// `ext_prod_phase`, whatever the rows hold, once the digits of `a` and of
/// `b` recompose to their rounded values.
proof fn lemma_ext_prod_phase(
    data: Seq<u64>,
    n: int,
    base_log: usize,
    level_count: usize,
    a: Seq<u64>,
    b: Seq<u64>,
    key: Seq<u64>,
    p: Seq<u64>,
)
    requires
        valid_decomposition(base_log, level_count),
        n > 0,
        data.len() == 4 * level_count * n,
        a.len() == n,
        b.len() == n,
        key.len() == n,
        p.len() == n,
        forall|i: int|
            0 <= i < n ==> #[trigger] recompose(base_log, level_count, signed_decomposition(base_log, level_count, a[i]))
                == closest_representable_spec(base_log, level_count, a[i]),
        forall|i: int|
            0 <= i < n ==> #[trigger] recompose(base_log, level_count, signed_decomposition(base_log, level_count, b[i]))
                == closest_representable_spec(base_log, level_count, b[i]),
    ensures
        phase(
            key,
            ext_prod_acc(data, n, base_log, level_count, a, b, level_count as int, false),
            ext_prod_acc(data, n, base_log, level_count, a, b, level_count as int, true),
        ) == ext_prod_phase(data, n, base_log, level_count, a, b, key, p),
{
    let w = word_modulus();
    let lc = level_count as int;
    lemma_ext_phase_steps(data, n, base_log, level_count, a, b, key, lc);
    lemma_ext_phase_recomp(data, n, base_log, level_count, a, b, key, p, lc);
    let ra = rounded_poly(base_log, level_count, a);
    let rb = rounded_poly(base_log, level_count, b);
    let rca = recomp_seq(base_log, level_count, a, lc);
    let rcb = recomp_seq(base_log, level_count, b, lc);
    assert forall|i: int| 0 <= i < n implies #[trigger] rca[i] == ra[i] by {
        assert(recompose(base_log, level_count, signed_decomposition(base_log, level_count, a[i]))
            == closest_representable_spec(base_log, level_count, a[i]));
    }
    assert forall|i: int| 0 <= i < n implies #[trigger] rcb[i] == rb[i] by {
        assert(recompose(base_log, level_count, signed_decomposition(base_log, level_count, b[i]))
            == closest_representable_spec(base_log, level_count, b[i]));
    }
    assert(rca =~= ra);
    assert(rcb =~= rb);
    // p * (rb - ra * key) = rb * p - ra * (p * key)
    let ps = negacyclic(p, key);
    let rak = negacyclic(ra, key);
    let ph = phase(key, ra, rb);
    assert forall|i: int| 0 <= i < n implies #[trigger] (ph[i] as int) % w == (1 * rb[i] + (-1) * rak[i]) % w by {
        lemma_mod_sub(rb[i] as int, rak[i] as int);
    }
    lemma_lin_right(p, ph, rb, rak, 1, -1);
    lemma_negacyclic_comm(p, rb);
    lemma_negacyclic_assoc(p, ra, key);
    lemma_negacyclic_comm(p, ra);
    lemma_negacyclic_assoc(ra, p, key);
    let lhs = phase(
        key,
        ext_prod_acc(data, n, base_log, level_count, a, b, lc, false),
        ext_prod_acc(data, n, base_log, level_count, a, b, lc, true),
    );
    let rhs = ext_prod_phase(data, n, base_log, level_count, a, b, key, p);
    lemma_ext_prod_acc_len(data, n, base_log, level_count, a, b, lc, true);
    assert forall|k: int| 0 <= k < n implies #[trigger] lhs[k] == rhs[k] by {
        let nn = ext_noise_acc(data, n, base_log, level_count, a, b, key, p, lc, k);
        let x = negacyclic(rb, p)[k] as int;
        let y = negacyclic(ra, ps)[k] as int;
        let z = negacyclic(p, ph)[k] as int;
        lemma_cong_add(z, 1 * x + (-1) * y, nn, nn);
        lemma_mod_sub(z + nn, 0);
        vstd::arithmetic::div_mod::lemma_small_mod(lhs[k] as nat, w as nat);
        vstd::arithmetic::div_mod::lemma_small_mod(rhs[k] as nat, w as nat);
    }
    assert(lhs =~= rhs);
}


/// The rows of an RGSW encryption of `p` (with binary noise) have binary
/// errors, so that the noise of an external product with it is the digits
/// times binary polynomials.
pub proof fn lemma_rgsw_row_errors_binary(key: Seq<u64>, ct: RGSWCiphertext, p: Seq<u64>)
    requires
        ct.wf(),
        key.len() == ct.poly_size,
        crate::rlwe::rgsw_encrypts_poly(key, ct, ct.base_log, p),
    ensures
        forall|r: int, i: int|
            0 <= r < 2 * ct.level_count && 0 <= i < key.len() ==> crate::backend::binary_noise(
                #[trigger] row_error(ct.data@, ct.poly_size as int, key, ct.base_log, p, r)[i],
            ),
{
    assert forall|r: int, i: int| 0 <= r < 2 * ct.level_count && 0 <= i < key.len() implies crate::backend::binary_noise(
        #[trigger] row_error(ct.data@, ct.poly_size as int, key, ct.base_log, p, r)[i],
    ) by {
        lemma_row_in_bounds(ct.level_count as int, ct.poly_size as int, r);
        assert(ct.row_mask_spec(r) == row_mask(ct.data@, ct.poly_size as int, r));
        assert(ct.row_body_spec(r) == row_body(ct.data@, ct.poly_size as int, r));
        assert(crate::backend::binary_noise(
            wrap(
                phase(key, ct.row_mask_spec(r), ct.row_body_spec(r))[i] - rgsw_row_plaintext(
                    key,
                    ct.base_log,
                    p,
                    r,
                )[i],
            ),
        ));
    }
}

} // verus!
