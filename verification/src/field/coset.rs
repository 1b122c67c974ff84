//! Transforms on cosets of the subgroups of roots of unity, and zero padding.

use crate::field::dft::{
    all_wf, dft, eval_poly, eval_strided, lemma_eval_wf, lemma_padded_id, lemma_root_full, padded,
    table_ok,
};
use crate::field::fft::{
    FftRootTable, fft_done, fft_expand, fft_ready, fft_with_options, fft_words, ifft,
    zero_factor_of,
};
use crate::field::goldilocks_field::GoldilocksField;
use crate::field::inversion::{lemma_dft_of_idft, lemma_idft_of_dft};
use crate::field::model::{
    Elt, elt0, elt1, group_elt_wf, lemma_mul_assoc, lemma_mul_comm, lemma_mul_dist,
    lemma_mul_one_zero,
};
use crate::field::packed::Packable;
use crate::field::polynomial::{PolynomialCoeffs, PolynomialValues, copy_vec};
use crate::field::roots::{lemma_power_of_product, lemma_power_one, lemma_power_wf, power, root};
use crate::field::types::{Field, lemma_s_power, s_power, vals};
use crate::util::bits::{is_power_of_two, lemma_log2, lemma_rev_bound, log2, two_pow};
use vstd::arithmetic::power2::{lemma_pow2_pos, pow2};
use vstd::prelude::*;

verus! {

/// The machine values of the coefficients multiplied by the powers of `shift`.
pub open spec fn shifted<F: Field>(c: Seq<F>, shift: F) -> Seq<F> {
    Seq::new(c.len(), |i: int| s_power(shift, i as nat).s_mul(c[i]))
}

/// The coefficients multiplied by the powers of `shift`.
pub open spec fn shifted_elts(c: Seq<Elt>, shift: Elt) -> Seq<Elt> {
    Seq::new(c.len(), |i: int| power(shift, i as nat) * c[i])
}

/// The values of a polynomial on the coset `shift * H`, where `H` is the subgroup of order
/// `2^lg_n`.
pub open spec fn coset_dft(c: Seq<Elt>, shift: Elt, lg_n: nat) -> Seq<Elt> {
    Seq::new(pow2(lg_n), |i: int| eval_poly(c, shift * power(root(lg_n), i as nat)))
}

/// Machine values stand for reduced elements.
pub proof fn lemma_vals_wf<F: Field>(s: Seq<F>)
    ensures
        all_wf(vals(s)),
        vals(s).len() == s.len(),
{
    assert forall|i: int| 0 <= i < s.len() implies (#[trigger] vals(s)[i]).wf() by {
        F::lemma_values(s[i]);
    }
}

proof fn lemma_shifted_vals<F: Field>(c: Seq<F>, shift: F)
    ensures
        vals(shifted(c, shift)) == shifted_elts(vals(c), shift.v()),
{
    assert forall|i: int| 0 <= i < c.len() implies vals(shifted(c, shift))[i]
        == #[trigger] shifted_elts(vals(c), shift.v())[i] by {
        lemma_s_power(shift, i as nat);
        F::lemma_ops(s_power(shift, i as nat), c[i]);
    }
    assert(vals(shifted(c, shift)) =~= shifted_elts(vals(c), shift.v()));
}

proof fn lemma_shift_from(c: Seq<Elt>, s: Elt, x: Elt, a: int, len: nat)
    requires
        all_wf(c),
        s.wf(),
        x.wf(),
        0 <= a,
        a + len <= c.len(),
    ensures
        eval_strided(shifted_elts(c, s), a, 1, len, x) == power(s, a as nat) * eval_strided(
            c,
            a,
            1,
            len,
            s * x,
        ),
    decreases len,
{
    broadcast use group_elt_wf;

    let p = power(s, a as nat);
    lemma_power_wf(s, a as nat);
    if len == 0 {
        lemma_mul_one_zero(p);
    } else {
        let m = (len - 1) as nat;
        lemma_shift_from(c, s, x, a + 1, m);
        let e = eval_strided(c, a + 1, 1, m, s * x);
        lemma_eval_wf(c, a + 1, 1, m, s * x);
        assert(power(s, (a + 1) as nat) == p * s);
        // p c + x ((p s) e) == p (c + (s x) e)
        lemma_mul_dist(p, c[a], (s * x) * e);
        lemma_mul_assoc(p, s, e);
        lemma_mul_comm(x, (p * s) * e);
        lemma_mul_assoc(p, s * e, x);
        lemma_mul_assoc(s, e, x);
        lemma_mul_comm(e, x);
        lemma_mul_assoc(s, x, e);
    }
}

/// Multiplying the coefficients by the powers of `s` is evaluating at `s` times the point.
pub proof fn lemma_shifted_eval(c: Seq<Elt>, s: Elt, x: Elt)
    requires
        all_wf(c),
        s.wf(),
        x.wf(),
    ensures
        eval_poly(shifted_elts(c, s), x) == eval_poly(c, s * x),
{
    lemma_shift_from(c, s, x, 0, c.len());
    lemma_eval_wf(c, 0, 1, c.len(), s * x);
    lemma_mul_one_zero(eval_poly(c, s * x));
}

/// The transform of the shifted coefficients holds the values on the coset.
pub proof fn lemma_coset_dft(c: Seq<Elt>, s: Elt, lg_n: nat)
    requires
        all_wf(c),
        s.wf(),
        lg_n <= 33,
    ensures
        dft(shifted_elts(c, s), lg_n) == coset_dft(c, s, lg_n),
{
    lemma_root_full(lg_n);
    assert forall|i: int| 0 <= i < pow2(lg_n) implies dft(shifted_elts(c, s), lg_n)[i]
        == #[trigger] coset_dft(c, s, lg_n)[i] by {
        lemma_power_wf(root(lg_n), i as nat);
        lemma_shifted_eval(c, s, power(root(lg_n), i as nat));
    }
    assert(dft(shifted_elts(c, s), lg_n) =~= coset_dft(c, s, lg_n));
}

proof fn lemma_padded_shifted(c: Seq<Elt>, s: Elt, m: int)
    requires
        all_wf(c),
        s.wf(),
    ensures
        padded(shifted_elts(c, s), m) == shifted_elts(padded(c, m), s),
        all_wf(padded(c, m)),
{
    assert forall|i: int| 0 <= i < c.len() implies padded(shifted_elts(c, s), m)[i]
        == #[trigger] shifted_elts(padded(c, m), s)[i] by {
        lemma_power_wf(s, i as nat);
        lemma_mul_one_zero(power(s, i as nat));
    }
    assert(padded(shifted_elts(c, s), m) =~= shifted_elts(padded(c, m), s));
}

/// What a transform on a coset returns: what the transform of the shifted coefficients returns,
/// which with its own or a proper table are the values on the coset.
pub open spec fn coset_fft_done<F: Packable>(
    coeffs: Seq<F>,
    shift: F,
    after: Seq<F>,
    zero_factor: Option<usize>,
    root_table: Option<&FftRootTable<F>>,
) -> bool {
    let lg_n = log2(coeffs.len());
    let live = pow2((lg_n - zero_factor_of(zero_factor)) as nat) as int;
    &&& fft_done(shifted(coeffs, shift), after, zero_factor, root_table)
    &&& root_table is None || table_ok(root_table->0@, lg_n) ==> vals(after) == coset_dft(
        padded(vals(coeffs), live),
        shift.v(),
        lg_n,
    )
}

proof fn lemma_coset_fft_done<F: Packable>(
    coeffs: Seq<F>,
    shift: F,
    after: Seq<F>,
    zero_factor: Option<usize>,
    root_table: Option<&FftRootTable<F>>,
)
    requires
        fft_ready(coeffs.len(), zero_factor, root_table),
        fft_done(shifted(coeffs, shift), after, zero_factor, root_table),
    ensures
        coset_fft_done(coeffs, shift, after, zero_factor, root_table),
{
    let lg_n = log2(coeffs.len());
    let live = pow2((lg_n - zero_factor_of(zero_factor)) as nat) as int;
    F::lemma_values(shift);
    lemma_vals_wf(coeffs);
    lemma_shifted_vals(coeffs, shift);
    lemma_padded_shifted(vals(coeffs), shift.v(), live);
    lemma_coset_dft(padded(vals(coeffs), live), shift.v(), lg_n);
}

impl<F: Packable> PolynomialCoeffs<F> {
    /// The polynomial without coefficients.
    pub fn empty() -> (r: Self)
        ensures
            r.coeffs@.len() == 0,
    {
        PolynomialCoeffs { coeffs: Vec::new() }
    }

    /// The same polynomial with zeros as further coefficients, `len` coefficients in all.
    pub fn padded(&self, len: usize) -> (r: Self)
        requires
            self.coeffs@.len() <= len,
        ensures
            r.coeffs@ == self.coeffs@ + Seq::new(
                (len - self.coeffs@.len()) as nat,
                |i: int| F::s_const(0),
            ),
    {
        let mut coeffs = copy_vec(&self.coeffs);
        let ghost n = self.coeffs@.len();
        assert(coeffs@ =~= self.coeffs@ + Seq::new(0, |i: int| F::s_const(0)));
        while coeffs.len() < len
            invariant
                n == self.coeffs@.len(),
                n <= coeffs@.len() <= len,
                coeffs@ == self.coeffs@ + Seq::new(
                    (coeffs@.len() - n) as nat,
                    |i: int| F::s_const(0),
                ),
            decreases len - coeffs@.len(),
        {
            coeffs.push(F::zero());
            assert(coeffs@ =~= self.coeffs@ + Seq::new(
                (coeffs@.len() - n) as nat,
                |i: int| F::s_const(0),
            ));
        }
        PolynomialCoeffs { coeffs }
    }

    /// The same polynomial with `2^rate_bits` times as many coefficients.
    pub fn lde(&self, rate_bits: usize) -> (r: Self)
        requires
            self.coeffs@.len() * pow2(rate_bits as nat) <= usize::MAX,
            pow2(rate_bits as nat) <= usize::MAX,
        ensures
            r.coeffs@ == self.coeffs@ + Seq::new(
                (self.coeffs@.len() * pow2(rate_bits as nat) - self.coeffs@.len()) as nat,
                |i: int| F::s_const(0),
            ),
    {
        let rate: usize = two_pow(rate_bits);
        let n: usize = self.coeffs.len();
        proof {
            lemma_pow2_pos(rate_bits as nat);
            assert(n <= n * rate) by (nonlinear_arith)
                requires
                    rate >= 1,
                    n >= 0,
            ;
        }
        self.padded(n * rate)
    }

    /// The coefficients multiplied by the powers of `shift`.
    fn shift_coeffs(&self, shift: F) -> (r: Vec<F>)
        ensures
            r@ == shifted(self.coeffs@, shift),
    {
        let n: usize = self.coeffs.len();
        let mut r: Vec<F> = Vec::with_capacity(n);
        let mut current = F::one();
        while r.len() < n
            invariant
                n == self.coeffs@.len(),
                r@.len() <= n,
                current == s_power(shift, r@.len()),
                r@ == shifted(self.coeffs@, shift).take(r@.len() as int),
            decreases n - r@.len(),
        {
            let i: usize = r.len();
            r.push(current.mul(self.coeffs[i]));
            current = current.mul(shift);
            assert(r@ =~= shifted(self.coeffs@, shift).take(r@.len() as int));
        }
        assert(r@ =~= shifted(self.coeffs@, shift));
        r
    }

    /// The values on the coset of `shift`, with the padding and the table that the options say.
    pub fn coset_fft_with_options(
        &self,
        shift: F,
        zero_factor: Option<usize>,
        root_table: Option<&FftRootTable<F>>,
    ) -> (r: PolynomialValues<F>)
        requires
            fft_ready(self.coeffs@.len(), zero_factor, root_table),
        ensures
            coset_fft_done(self.coeffs@, shift, r.values@, zero_factor, root_table),
    {
        let modified = PolynomialCoeffs { coeffs: self.shift_coeffs(shift) };
        let r = fft_with_options(modified, zero_factor, root_table);
        proof {
            lemma_coset_fft_done(self.coeffs@, shift, r.values@, zero_factor, root_table);
        }
        r
    }

    /// The values on the coset of `shift`.
    pub fn coset_fft(&self, shift: F) -> (r: PolynomialValues<F>)
        requires
            is_power_of_two(self.coeffs@.len()),
            log2(self.coeffs@.len()) <= F::two_adicity(),
        ensures
            coset_fft_done(self.coeffs@, shift, r.values@, None, None),
            vals(r.values@) == coset_dft(
                vals(self.coeffs@),
                shift.v(),
                log2(self.coeffs@.len()),
            ),
    {
        let r = self.coset_fft_with_options(shift, None, None);
        proof {
            let k = choose|k: nat| pow2(k) == self.coeffs@.len();
            lemma_log2(k);
            lemma_padded_id(vals(self.coeffs@), self.coeffs@.len() as int);
        }
        r
    }
}

/// The first `live` coefficients multiplied by the powers of the shift, and zeros after them.
pub open spec fn shifted_live<F: Packable>(c: Seq<F>, shift: F, live: int) -> Seq<F> {
    Seq::new(
        c.len(),
        |i: int|
            if i < live {
                shifted(c, shift)[i]
            } else {
                F::s_const(0)
            },
    )
}

/// The transform on a coset of coefficients that are zero from index `live` on: only the others
/// are multiplied by the powers of the shift.
pub fn coset_fft_zero_tail<F: Packable>(
    coeffs: &PolynomialCoeffs<F>,
    shift: F,
    live: usize,
    zero_factor: Option<usize>,
    root_table: Option<&FftRootTable<F>>,
) -> (r: PolynomialValues<F>)
    requires
        fft_ready(coeffs.coeffs@.len(), zero_factor, root_table),
        live <= coeffs.coeffs@.len(),
        forall|i: int|
            live <= i < coeffs.coeffs@.len() ==> (#[trigger] coeffs.coeffs@[i]).v() == elt0(),
    ensures
        r.values@.len() == coeffs.coeffs@.len(),
        fft_done(
            shifted_live(coeffs.coeffs@, shift, live as int),
            r.values@,
            zero_factor,
            root_table,
        ),
        root_table is None || table_ok(root_table->0@, log2(coeffs.coeffs@.len())) ==> vals(
            r.values@,
        ) == coset_dft(
            padded(
                vals(coeffs.coeffs@),
                pow2((log2(coeffs.coeffs@.len()) - zero_factor_of(zero_factor)) as nat) as int,
            ),
            shift.v(),
            log2(coeffs.coeffs@.len()),
        ),
{
    let ghost c = coeffs.coeffs@;
    let len: usize = coeffs.coeffs.len();
    let mut scaled: Vec<F> = Vec::with_capacity(len);
    let mut current = F::one();
    while scaled.len() < live
        invariant
            c == coeffs.coeffs@,
            len == c.len(),
            scaled@.len() <= live <= len,
            current == s_power(shift, scaled@.len()),
            forall|i: int| 0 <= i < scaled@.len() ==> #[trigger] scaled@[i] == shifted(c, shift)[i],
        decreases live - scaled@.len(),
    {
        let i: usize = scaled.len();
        scaled.push(current.mul(coeffs.coeffs[i]));
        current = current.mul(shift);
    }
    while scaled.len() < len
        invariant
            len == c.len(),
            live <= scaled@.len() <= len,
            forall|i: int| 0 <= i < live ==> #[trigger] scaled@[i] == shifted(c, shift)[i],
            forall|i: int| live <= i < scaled@.len() ==> #[trigger] scaled@[i] == F::s_const(0),
        decreases len - scaled@.len(),
    {
        scaled.push(F::zero());
    }
    let ghost before = scaled@;
    assert(before =~= shifted_live(c, shift, live as int));
    let r = fft_with_options(PolynomialCoeffs { coeffs: scaled }, zero_factor, root_table);
    proof {
        F::lemma_values(shift);
        lemma_vals_wf(c);
        lemma_shifted_vals(c, shift);
        let target = shifted_elts(vals(c), shift.v());
        assert forall|i: int| 0 <= i < len implies vals(before)[i] == #[trigger] target[i] by {
            if i < live {
                assert(before[i] == shifted(c, shift)[i]);
                assert(vals(shifted(c, shift))[i] == target[i]);
            } else {
                assert(before[i] == F::s_const(0));
                assert(c[i].v() == elt0());
                lemma_power_wf(shift.v(), i as nat);
                lemma_mul_one_zero(power(shift.v(), i as nat));
            }
        }
        assert(vals(before) =~= target);
        let lg_n = log2(c.len());
        let m = pow2((lg_n - zero_factor_of(zero_factor)) as nat) as int;
        lemma_padded_shifted(vals(c), shift.v(), m);
        lemma_coset_dft(padded(vals(c), m), shift.v(), lg_n);
    }
    r
}

/// Where the coefficients that a shortcut skips are zero, the shortcut and the full transform
/// return the same values.
pub proof fn lemma_zero_factor_is_exact<F: Packable>(
    before: Seq<F>,
    short: Seq<F>,
    full: Seq<F>,
    zero_factor: usize,
)
    requires
        is_power_of_two(before.len()),
        zero_factor <= log2(before.len()),
        forall|i: int|
            pow2((log2(before.len()) - zero_factor) as nat) <= i < before.len() ==> (
            #[trigger] before[i]).v() == elt0(),
        fft_done(before, short, Some(zero_factor), None),
        fft_done(before, full, None, None),
    ensures
        vals(short) == vals(full),
{
    let lg_n = log2(before.len());
    let k = choose|k: nat| pow2(k) == before.len();
    lemma_log2(k);
    let m = pow2((lg_n - zero_factor) as nat) as int;
    assert forall|i: int| m <= i < before.len() implies vals(before)[i] == elt0() by {
        assert(before[i].v() == elt0());
    }
    lemma_padded_id(vals(before), m);
    lemma_padded_id(vals(before), before.len() as int);
}

/// The shortcut only reads the coefficients that it does not skip.
pub proof fn lemma_zero_factor_ignores_tail<F: Field>(
    x: Seq<F>,
    y: Seq<F>,
    table: Seq<Vec<F>>,
    r: nat,
    lg_n: nat,
)
    requires
        r <= lg_n,
        x.len() == pow2(lg_n),
        y.len() == pow2(lg_n),
        forall|i: int| 0 <= i < pow2((lg_n - r) as nat) ==> #[trigger] x[i] == y[i],
    ensures
        fft_words(x, table, r, lg_n) == fft_words(y, table, r, lg_n),
{
    let (a, b) = (fft_expand(x, r, lg_n), fft_expand(y, r, lg_n));
    assert forall|i: int| 0 <= i < x.len() implies a[i] == #[trigger] b[i] by {
        lemma_rev_bound((i / pow2(r) as int) as nat, (lg_n - r) as nat);
    }
    assert(a =~= b);
}

proof fn lemma_unshift(c: Seq<Elt>, s: Elt, t: Elt)
    requires
        all_wf(c),
        s.wf(),
        t.wf(),
        s * t == elt1(),
    ensures
        shifted_elts(shifted_elts(c, t), s) == c,
{
    broadcast use group_elt_wf;

    assert forall|i: int| 0 <= i < c.len() implies shifted_elts(shifted_elts(c, t), s)[i]
        == #[trigger] c[i] by {
        let (p, q) = (power(s, i as nat), power(t, i as nat));
        lemma_power_wf(s, i as nat);
        lemma_power_wf(t, i as nat);
        lemma_power_of_product(s, t, i as nat);
        lemma_power_one(i as nat);
        lemma_mul_assoc(p, q, c[i]);
        lemma_mul_one_zero(c[i]);
    }
    assert(shifted_elts(shifted_elts(c, t), s) =~= c);
}

/// A polynomial is determined by its values on a coset.
pub proof fn lemma_coset_values_determine(c: Seq<Elt>, d: Seq<Elt>, s: Elt, t: Elt, lg_n: nat)
    requires
        lg_n <= 33,
        c.len() == pow2(lg_n),
        d.len() == pow2(lg_n),
        all_wf(c),
        all_wf(d),
        s.wf(),
        t.wf(),
        s * t == elt1(),
        coset_dft(c, s, lg_n) == coset_dft(d, s, lg_n),
    ensures
        c == d,
{
    broadcast use group_elt_wf;

    lemma_coset_dft(c, s, lg_n);
    lemma_coset_dft(d, s, lg_n);
    lemma_idft_of_dft(shifted_elts(c, s), lg_n);
    lemma_idft_of_dft(shifted_elts(d, s), lg_n);
    lemma_mul_comm(s, t);
    lemma_unshift(c, t, s);
    lemma_unshift(d, t, s);
}

impl PolynomialValues<GoldilocksField> {
    /// The coefficients of the polynomial with the given values on the coset of `shift`.
    pub fn coset_ifft(self, shift: GoldilocksField) -> (r: PolynomialCoeffs<GoldilocksField>)
        requires
            is_power_of_two(self.values@.len()),
            log2(self.values@.len()) <= GoldilocksField::two_adicity(),
            shift.v() != elt0(),
        ensures
            r.coeffs@.len() == self.values@.len(),
            coset_dft(vals(r.coeffs@), shift.v(), log2(self.values@.len())) == vals(self.values@),
    {
        let ghost values = vals(self.values@);
        let ghost lg_n = log2(self.values@.len());
        proof {
            let k = choose|k: nat| pow2(k) == self.values@.len();
            lemma_log2(k);
            lemma_vals_wf(self.values@);
            GoldilocksField::lemma_values(shift);
        }
        let mut coeffs = ifft(self).coeffs;
        let ghost before = coeffs@;
        let n: usize = coeffs.len();
        assert(vals(before).len() == n);
        let inverse = shift.inverse();
        let mut current = GoldilocksField::one();
        let mut i: usize = 0;
        while i < n
            invariant
                i <= n == coeffs@.len(),
                n == before.len(),
                current == s_power(inverse, i as nat),
                forall|k: int| i <= k < n ==> #[trigger] coeffs@[k] == before[k],
                forall|k: int|
                    0 <= k < i ==> (#[trigger] coeffs@[k]).v() == power(inverse.v(), k as nat)
                        * before[k].v(),
            decreases n - i,
        {
            proof {
                GoldilocksField::lemma_ops(coeffs@[i as int], current);
                lemma_s_power(inverse, i as nat);
                lemma_mul_comm(coeffs@[i as int].v(), current.v());
            }
            let c = coeffs[i].mul(current);
            coeffs[i] = c;
            current = current.mul(inverse);
            i = i + 1;
        }
        proof {
            GoldilocksField::lemma_values(inverse);
            lemma_vals_wf(before);
            lemma_vals_wf(coeffs@);
            assert(vals(coeffs@) =~= shifted_elts(vals(before), inverse.v()));
            lemma_unshift(vals(before), shift.v(), inverse.v());
            lemma_coset_dft(vals(coeffs@), shift.v(), lg_n);
            lemma_dft_of_idft(values, lg_n);
        }
        PolynomialCoeffs { coeffs }
    }
}

} // verus!
