//! Running products over chunks of factors, and the checks that relate consecutive ones.

use crate::field::model::Elt;
use crate::field::polynomial::filled;
use crate::field::types::{Field, vals};
use crate::plonk::circuit_builder::{
    Assignment, CircuitBuilder, ExtensionTarget, grown, lemma_value_kept, lemma_values_kept,
    node_value, product_to, same_rest, target_values, targets_in,
};
use vstd::prelude::*;
use vstd::slice::slice_subrange;

verus! {

/// The number of chunks of at most `size` elements that `n` elements make.
pub open spec fn chunk_count(n: nat, size: nat) -> nat {
    if n as int % size as int == 0 {
        n / size
    } else {
        n / size + 1
    }
}

/// Chunk `k` of a sequence cut into chunks of `size` elements; the last one may be shorter.
pub open spec fn chunk<A>(s: Seq<A>, size: nat, k: int) -> Seq<A> {
    let lo = k * size;
    let hi = if lo + size <= s.len() {
        lo + size
    } else {
        s.len() as int
    };
    s.subrange(lo, hi)
}

/// A chunk that exists starts inside the sequence, and the chunks up to it fit.
pub proof fn lemma_chunk_bounds(n: nat, size: nat, k: int)
    requires
        size > 0,
        0 <= k < chunk_count(n, size),
    ensures
        0 <= k * size < n,
        k + 1 < chunk_count(n, size) ==> (k + 1) * size < n,
        k + 1 == chunk_count(n, size) ==> n <= (k + 1) * size,
        k * size + size == (k + 1) * size,
        chunk_count(n, size) <= n,
{
    let (q, m) = (n as int / size as int, n as int % size as int);
    vstd::arithmetic::div_mod::lemma_fundamental_div_mod(n as int, size as int);
    vstd::arithmetic::div_mod::lemma_mod_bound(n as int, size as int);
    assert(q * size + m == n) by (nonlinear_arith)
        requires
            size * q + m == n,
    ;
    assert(k * size + size == (k + 1) * size) by (nonlinear_arith);
    assert(0 <= k * size) by (nonlinear_arith)
        requires
            0 <= k,
    ;
    assert(q >= 0) by (nonlinear_arith)
        requires
            q * size + m == n,
            0 <= m < size,
            n >= 0,
    ;
    assert(q <= q * size) by (nonlinear_arith)
        requires
            q >= 0,
            size > 0,
    ;
    if k + 1 <= q {
        assert((k + 1) * size <= q * size) by (nonlinear_arith)
            requires
                k + 1 <= q,
                size > 0,
        ;
    }
    if k + 2 <= q {
        assert((k + 2) * size <= q * size) by (nonlinear_arith)
            requires
                k + 2 <= q,
                size > 0,
        ;
        assert((k + 2) * size == (k + 1) * size + size) by (nonlinear_arith);
    }
    assert((q + 1) * size == q * size + size) by (nonlinear_arith);
}

/// The number of chunks.
fn count_chunks(n: usize, size: usize) -> (r: usize)
    requires
        size > 0,
    ensures
        r == chunk_count(n as nat, size as nat),
        r <= n,
        n > 0 ==> r > 0,
{
    proof {
        let (q, m) = (n as int / size as int, n as int % size as int);
        vstd::arithmetic::div_mod::lemma_fundamental_div_mod(n as int, size as int);
        vstd::arithmetic::div_mod::lemma_mod_bound(n as int, size as int);
        assert(0 <= q <= size * q) by (nonlinear_arith)
            requires
                size * q + m == n,
                0 <= m < size,
                n >= 0,
        ;
        assert(q == 0 ==> size * q == 0) by (nonlinear_arith);
    }
    let full: usize = n / size;
    if n % size == 0 {
        full
    } else {
        full + 1
    }
}

/// The machine value of the product of the first `n` elements, from the left.
pub open spec fn s_product_to<F: Field>(s: Seq<F>, n: nat) -> F
    decreases n,
{
    if n == 0 {
        F::s_const(1)
    } else {
        s_product_to(s, (n - 1) as nat).s_mul(s[n - 1])
    }
}

/// The machine value of the product of all elements, from the left.
pub open spec fn s_product<F: Field>(s: Seq<F>) -> F {
    s_product_to(s, s.len())
}

/// The product of all elements.
pub open spec fn product(s: Seq<Elt>) -> Elt {
    product_to(s, s.len())
}

/// The machine value of a product stands for the product.
pub proof fn lemma_s_product<F: Field>(s: Seq<F>, n: nat)
    requires
        n <= s.len(),
    ensures
        s_product_to(s, n).v() == product_to(vals(s), n),
    decreases n,
{
    F::lemma_values(F::s_const(0));
    if n > 0 {
        let m = (n - 1) as nat;
        lemma_s_product(s, m);
        F::lemma_ops(s_product_to(s, m), s[n - 1]);
    }
}

/// The product of a part of a slice.
fn product_between<F: Field>(s: &[F], lo: usize, hi: usize) -> (r: F)
    requires
        lo <= hi <= s@.len(),
    ensures
        r == s_product(s@.subrange(lo as int, hi as int)),
{
    let mut r = F::one();
    let mut i: usize = lo;
    let ghost part = s@.subrange(lo as int, hi as int);
    while i < hi
        invariant
            lo <= i <= hi <= s@.len(),
            part == s@.subrange(lo as int, hi as int),
            r == s_product_to(part, (i - lo) as nat),
        decreases hi - i,
    {
        r = r.mul(s[i]);
        i = i + 1;
        assert(part[i - 1 - lo] == s@[i - 1]);
    }
    r
}

/// The bounds of chunk `k`.
fn chunk_bounds(n: usize, size: usize, k: usize) -> (r: (usize, usize))
    requires
        size > 0,
        k < chunk_count(n as nat, size as nat),
    ensures
        r.0 == k * size,
        r.0 <= r.1 <= n,
        r.1 == (if k * size + size <= n {
            k * size + size
        } else {
            n as int
        }),
{
    proof {
        lemma_chunk_bounds(n as nat, size as nat, k as int);
    }
    let lo: usize = k * size;
    let hi: usize = if n - lo >= size {
        lo + size
    } else {
        n
    };
    (lo, hi)
}

/// Writes one product per `max_degree`-sized chunk of `quotient_values` into `out`.
pub fn quotient_chunk_products_into<F: Field>(
    quotient_values: &[F],
    max_degree: usize,
    out: &mut [F],
)
    requires
        max_degree > 1,
        quotient_values@.len() > 0,
        old(out)@.len() == chunk_count(quotient_values@.len(), max_degree as nat),
    ensures
        final(out)@ == Seq::new(
            chunk_count(quotient_values@.len(), max_degree as nat),
            |k: int| s_product(chunk(quotient_values@, max_degree as nat, k)),
        ),
{
    let n: usize = quotient_values.len();
    let mut k: usize = 0;
    while k < out.len()
        invariant
            max_degree > 1,
            n == quotient_values@.len(),
            k <= out@.len(),
            out@.len() == chunk_count(n as nat, max_degree as nat),
            forall|j: int|
                0 <= j < k ==> #[trigger] out@[j] == s_product(
                    chunk(quotient_values@, max_degree as nat, j),
                ),
        decreases out@.len() - k,
    {
        let (lo, hi) = chunk_bounds(n, max_degree, k);
        let product = product_between(quotient_values, lo, hi);
        out[k] = product;
        k = k + 1;
    }
    assert(out@ =~= Seq::new(
        chunk_count(quotient_values@.len(), max_degree as nat),
        |k: int| s_product(chunk(quotient_values@, max_degree as nat, k)),
    ));
}

/// One product per `max_degree`-sized chunk of `quotient_values`.
pub fn quotient_chunk_products<F: Field>(quotient_values: &[F], max_degree: usize) -> (r: Vec<F>)
    requires
        max_degree > 1,
        quotient_values@.len() > 0,
    ensures
        r@ == Seq::new(
            chunk_count(quotient_values@.len(), max_degree as nat),
            |k: int| s_product(chunk(quotient_values@, max_degree as nat, k)),
        ),
{
    let num_chunks: usize = count_chunks(quotient_values.len(), max_degree);
    let mut res = filled(F::zero(), num_chunks);
    quotient_chunk_products_into(quotient_values, max_degree, res.as_mut_slice());
    res
}

/// The running products: entry `k` is `z_x` times the first `k + 1` chunk products.
pub open spec fn running_products<F: Field>(z_x: F, chunk_products: Seq<F>, k: nat) -> F
    decreases k,
{
    if k == 0 {
        z_x
    } else {
        running_products(z_x, chunk_products, (k - 1) as nat).s_mul(chunk_products[k - 1])
    }
}

/// Compute partial products such that each consists of one more chunk than the one before it. The
/// last one is the product of all chunks.
pub fn partial_products_and_z_gx<F: Field>(z_x: F, quotient_chunk_products: &[F]) -> (r: Vec<F>)
    requires
        quotient_chunk_products@.len() > 0,
    ensures
        r@ == Seq::new(
            quotient_chunk_products@.len(),
            |k: int| running_products(z_x, quotient_chunk_products@, (k + 1) as nat),
        ),
{
    let n: usize = quotient_chunk_products.len();
    let mut res: Vec<F> = Vec::with_capacity(n);
    let mut acc = z_x;
    while res.len() < n
        invariant
            n == quotient_chunk_products@.len(),
            res@.len() <= n,
            acc == running_products(z_x, quotient_chunk_products@, res@.len()),
            forall|k: int|
                0 <= k < res@.len() ==> #[trigger] res@[k] == running_products(
                    z_x,
                    quotient_chunk_products@,
                    (k + 1) as nat,
                ),
        decreases n - res@.len(),
    {
        let i: usize = res.len();
        acc = acc.mul(quotient_chunk_products[i]);
        res.push(acc);
    }
    assert(res@ =~= Seq::new(
        quotient_chunk_products@.len(),
        |k: int| running_products(z_x, quotient_chunk_products@, (k + 1) as nat),
    ));
    res
}

/// Returns the number of partial products for `n` factors: one for each chunk but the last, whose
/// product belongs to `Z(gx)` itself.
pub fn num_partial_products(n: usize, max_degree: usize) -> (r: usize)
    requires
        max_degree > 1,
        n > 0,
    ensures
        r == chunk_count(n as nat, max_degree as nat) - 1,
{
    count_chunks(n, max_degree) - 1
}

/// The accumulators: `Z(x)`, then each partial product, and finally `Z(g x)`.
pub open spec fn accumulators<A>(z_x: A, partials: Seq<A>, z_gx: A) -> Seq<A> {
    seq![z_x] + partials + seq![z_gx]
}

/// The machine value of check `k`.
pub open spec fn s_check<F: Field>(
    numerators: Seq<F>,
    denominators: Seq<F>,
    accs: Seq<F>,
    max_degree: nat,
    k: int,
) -> F {
    accs[k].s_mul(s_product(chunk(numerators, max_degree, k))).s_sub(
        accs[k + 1].s_mul(s_product(chunk(denominators, max_degree, k))),
    )
}

/// Check `k`: the next accumulator times the denominators of the chunk is the previous one times
/// its numerators.
pub open spec fn check_term(
    numerators: Seq<Elt>,
    denominators: Seq<Elt>,
    accs: Seq<Elt>,
    max_degree: nat,
    k: int,
) -> Elt {
    accs[k] * product(chunk(numerators, max_degree, k)) - accs[k + 1] * product(
        chunk(denominators, max_degree, k),
    )
}

/// The machine value of a check stands for the check.
pub proof fn lemma_s_check<F: Field>(
    numerators: Seq<F>,
    denominators: Seq<F>,
    accs: Seq<F>,
    max_degree: nat,
    k: int,
)
    requires
        max_degree > 1,
        0 <= k < chunk_count(numerators.len(), max_degree),
        chunk_count(denominators.len(), max_degree) == chunk_count(numerators.len(), max_degree),
        accs.len() == chunk_count(numerators.len(), max_degree) + 1,
    ensures
        s_check(numerators, denominators, accs, max_degree, k).v() == check_term(
            vals(numerators),
            vals(denominators),
            vals(accs),
            max_degree,
            k,
        ),
{
    lemma_chunk_bounds(numerators.len(), max_degree, k);
    lemma_chunk_bounds(denominators.len(), max_degree, k);
    let (a, b) = (chunk(numerators, max_degree, k), chunk(denominators, max_degree, k));
    lemma_s_product(a, a.len());
    lemma_s_product(b, b.len());
    assert(vals(a) =~= chunk(vals(numerators), max_degree, k));
    assert(vals(b) =~= chunk(vals(denominators), max_degree, k));
    let (p, q) = (s_product(a), s_product(b));
    F::lemma_ops(accs[k], p);
    F::lemma_ops(accs[k + 1], q);
    F::lemma_ops(accs[k].s_mul(p), accs[k + 1].s_mul(q));
}

/// Checks the relationship between each pair of accumulators, appending the check terms to `out`.
pub fn check_partial_products_into<F: Field>(
    numerators: &[F],
    denominators: &[F],
    partials: &[F],
    z_x: F,
    z_gx: F,
    max_degree: usize,
    out: &mut Vec<F>,
)
    requires
        max_degree > 1,
        chunk_count(numerators@.len(), max_degree as nat) == partials@.len() + 1,
        chunk_count(denominators@.len(), max_degree as nat) == partials@.len() + 1,
    ensures
        final(out)@ == old(out)@ + Seq::new(
            partials@.len() + 1,
            |k: int|
                s_check(
                    numerators@,
                    denominators@,
                    accumulators(z_x, partials@, z_gx),
                    max_degree as nat,
                    k,
                ),
        ),
{
    let n: usize = numerators.len();
    let m: usize = denominators.len();
    let num_chunks: usize = count_chunks(n, max_degree);
    let ghost before = out@;
    let ghost accs = accumulators(z_x, partials@, z_gx);
    let mut k: usize = 0;
    assert(out@ =~= before + Seq::new(
        0,
        |j: int| s_check(numerators@, denominators@, accs, max_degree as nat, j),
    ));
    while k < num_chunks
        invariant
            max_degree > 1,
            k <= num_chunks,
            n == numerators@.len(),
            m == denominators@.len(),
            num_chunks == partials@.len() + 1,
            chunk_count(n as nat, max_degree as nat) == num_chunks,
            chunk_count(m as nat, max_degree as nat) == num_chunks,
            accs == accumulators(z_x, partials@, z_gx),
            out@ == before + Seq::new(
                k as nat,
                |j: int| s_check(numerators@, denominators@, accs, max_degree as nat, j),
            ),
        decreases num_chunks - k,
    {
        let (num_lo, num_hi) = chunk_bounds(n, max_degree, k);
        let (den_lo, den_hi) = chunk_bounds(m, max_degree, k);
        let prev_acc = if k == 0 {
            z_x
        } else {
            partials[k - 1]
        };
        let next_acc = if k + 1 < num_chunks {
            partials[k]
        } else {
            z_gx
        };
        let num_chunk_product = product_between(numerators, num_lo, num_hi);
        let den_chunk_product = product_between(denominators, den_lo, den_hi);
        // Assert that next_acc * deno_product = prev_acc * nume_product.
        out.push(prev_acc.mul(num_chunk_product).sub(next_acc.mul(den_chunk_product)));
        k = k + 1;
        assert(out@ =~= before + Seq::new(
            k as nat,
            |j: int| s_check(numerators@, denominators@, accs, max_degree as nat, j),
        ));
    }
}

/// Checks the relationship between each pair of accumulators.
pub fn check_partial_products<F: Field>(
    numerators: &[F],
    denominators: &[F],
    partials: &[F],
    z_x: F,
    z_gx: F,
    max_degree: usize,
) -> (r: Vec<F>)
    requires
        max_degree > 1,
        chunk_count(numerators@.len(), max_degree as nat) == partials@.len() + 1,
        chunk_count(denominators@.len(), max_degree as nat) == partials@.len() + 1,
    ensures
        r@ == Seq::new(
            partials@.len() + 1,
            |k: int|
                s_check(
                    numerators@,
                    denominators@,
                    accumulators(z_x, partials@, z_gx),
                    max_degree as nat,
                    k,
                ),
        ),
{
    let mut res: Vec<F> = Vec::with_capacity(count_chunks(numerators.len(), max_degree));
    check_partial_products_into(
        numerators,
        denominators,
        partials,
        z_x,
        z_gx,
        max_degree,
        &mut res,
    );
    assert(res@ =~= Seq::new(
        partials@.len() + 1,
        |k: int|
            s_check(
                numerators@,
                denominators@,
                accumulators(z_x, partials@, z_gx),
                max_degree as nat,
                k,
            ),
    ));
    res
}

/// Checks the relationship between each pair of accumulators in a circuit.
pub fn check_partial_products_circuit(
    builder: &mut CircuitBuilder,
    numerators: &[ExtensionTarget],
    denominators: &[ExtensionTarget],
    partials: &[ExtensionTarget],
    z_x: ExtensionTarget,
    z_gx: ExtensionTarget,
    max_degree: usize,
) -> (r: Vec<ExtensionTarget>)
    requires
        old(builder).wf(),
        max_degree > 1,
        chunk_count(numerators@.len(), max_degree as nat) == partials@.len() + 1,
        chunk_count(denominators@.len(), max_degree as nat) == partials@.len() + 1,
        targets_in(old(builder).nodes@, numerators@),
        targets_in(old(builder).nodes@, denominators@),
        targets_in(old(builder).nodes@, partials@),
        z_x.index < old(builder).nodes@.len(),
        z_gx.index < old(builder).nodes@.len(),
    ensures
        grown(old(builder).nodes@, final(builder).nodes@),
        same_rest(*old(builder), *final(builder)),
        targets_in(final(builder).nodes@, r@),
        r@.len() == partials@.len() + 1,
        forall|k: int, asg: Assignment|
            0 <= k < r@.len() && asg.wf() ==> #[trigger] node_value(
                final(builder).nodes@,
                asg,
                r@[k].index as int,
            ) == check_term(
                target_values(old(builder).nodes@, asg, numerators@),
                target_values(old(builder).nodes@, asg, denominators@),
                target_values(
                    old(builder).nodes@,
                    asg,
                    accumulators(z_x, partials@, z_gx),
                ),
                max_degree as nat,
                k,
            ),
{
    let ghost n0 = builder.nodes@;
    let ghost rest = *builder;
    let n: usize = numerators.len();
    let m: usize = denominators.len();
    let num_chunks: usize = count_chunks(n, max_degree);
    let ghost accs = accumulators(z_x, partials@, z_gx);
    let mut res: Vec<ExtensionTarget> = Vec::with_capacity(num_chunks);
    while res.len() < num_chunks
        invariant
            builder.wf(),
            max_degree > 1,
            res@.len() <= num_chunks,
            n == numerators@.len(),
            m == denominators@.len(),
            num_chunks == partials@.len() + 1,
            chunk_count(n as nat, max_degree as nat) == num_chunks,
            chunk_count(m as nat, max_degree as nat) == num_chunks,
            accs == accumulators(z_x, partials@, z_gx),
            grown(n0, builder.nodes@),
            same_rest(rest, *builder),
            targets_in(n0, numerators@),
            targets_in(n0, denominators@),
            targets_in(n0, partials@),
            z_x.index < n0.len(),
            z_gx.index < n0.len(),
            targets_in(builder.nodes@, res@),
            forall|k: int, asg: Assignment|
                0 <= k < res@.len() && asg.wf() ==> #[trigger] node_value(
                    builder.nodes@,
                    asg,
                    res@[k].index as int,
                ) == check_term(
                    target_values(n0, asg, numerators@),
                    target_values(n0, asg, denominators@),
                    target_values(n0, asg, accs),
                    max_degree as nat,
                    k,
                ),
        decreases num_chunks - res@.len(),
    {
        let k: usize = res.len();
        let ghost m0 = builder.nodes@;
        let ghost res0 = res@;
        let (num_lo, num_hi) = chunk_bounds(n, max_degree, k);
        let (den_lo, den_hi) = chunk_bounds(m, max_degree, k);
        let prev_acc = if k == 0 {
            z_x
        } else {
            partials[k - 1]
        };
        let next_acc = if k + 1 < num_chunks {
            partials[k]
        } else {
            z_gx
        };
        proof {
            assert(k > 0 ==> partials@[k - 1].index < n0.len());
            assert(k + 1 < num_chunks ==> partials@[k as int].index < n0.len());
            assert(accs[k as int] == prev_acc && accs[k + 1] == next_acc);
        }
        let num_chunk = slice_subrange(numerators, num_lo, num_hi);
        let den_chunk = slice_subrange(denominators, den_lo, den_hi);
        proof {
            assert forall|i: int| 0 <= i < num_chunk@.len() implies (#[trigger] num_chunk@[i]).index
                < n0.len() by {
                assert(num_chunk@[i] == numerators@[num_lo + i]);
            }
            assert forall|i: int| 0 <= i < den_chunk@.len() implies (#[trigger] den_chunk@[i]).index
                < n0.len() by {
                assert(den_chunk@[i] == denominators@[den_lo + i]);
            }
            assert(targets_in(n0, num_chunk@) && targets_in(n0, den_chunk@));
            assert(targets_in(m0, num_chunk@));
        }
        let nume_product = builder.mul_many_extension(num_chunk);
        let ghost m1 = builder.nodes@;
        assert(targets_in(m1, den_chunk@));
        let deno_product = builder.mul_many_extension(den_chunk);
        let ghost m2 = builder.nodes@;
        let next_acc_deno = builder.mul_extension(next_acc, deno_product);
        let ghost m3 = builder.nodes@;
        // Assert that next_acc * deno_product = prev_acc * nume_product.
        let term = builder.mul_sub_extension(prev_acc, nume_product, next_acc_deno);
        res.push(term);
        proof {
            let mm = builder.nodes@;
            assert(grown(m0, m1) && grown(m1, mm) && grown(m2, mm) && grown(m3, mm) && grown(
                m0,
                mm,
            ) && grown(n0, m1) && grown(n0, mm));
            assert forall|j: int, asg: Assignment|
                0 <= j < res@.len() && asg.wf() implies #[trigger] node_value(
                mm,
                asg,
                res@[j].index as int,
            ) == check_term(
                target_values(n0, asg, numerators@),
                target_values(n0, asg, denominators@),
                target_values(n0, asg, accs),
                max_degree as nat,
                j,
            ) by {
                if j < k {
                    assert(res@[j] == res0[j]);
                    assert(res0[j].index < m0.len());
                    lemma_value_kept(m0, mm, asg, res0[j].index as int);
                    assert(node_value(m0, asg, res0[j].index as int) == check_term(
                        target_values(n0, asg, numerators@),
                        target_values(n0, asg, denominators@),
                        target_values(n0, asg, accs),
                        max_degree as nat,
                        j,
                    ));
                } else {
                    lemma_values_kept(n0, m0, asg, num_chunk@);
                    lemma_values_kept(n0, m1, asg, den_chunk@);
                    let (nv, dv) = (
                        target_values(n0, asg, num_chunk@),
                        target_values(n0, asg, den_chunk@),
                    );
                    assert(nv =~= chunk(
                        target_values(n0, asg, numerators@),
                        max_degree as nat,
                        k as int,
                    ));
                    assert(dv =~= chunk(
                        target_values(n0, asg, denominators@),
                        max_degree as nat,
                        k as int,
                    ));
                    assert(node_value(m1, asg, nume_product.index as int) == product(nv));
                    assert(node_value(m2, asg, deno_product.index as int) == product(dv));
                    lemma_value_kept(m1, mm, asg, nume_product.index as int);
                    lemma_value_kept(m2, mm, asg, deno_product.index as int);
                    lemma_value_kept(m2, m3, asg, deno_product.index as int);
                    lemma_value_kept(n0, mm, asg, prev_acc.index as int);
                    lemma_value_kept(n0, m3, asg, next_acc.index as int);
                    lemma_value_kept(m3, mm, asg, next_acc_deno.index as int);
                    let av = target_values(n0, asg, accs);
                    assert(av[k as int] == node_value(n0, asg, prev_acc.index as int));
                    assert(av[k + 1] == node_value(n0, asg, next_acc.index as int));
                }
            }
        }
    }
    res
}

} // verus!
