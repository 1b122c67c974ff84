//! The checks of running products accept the products that are computed, and what they accept is
//! right.

use crate::field::coset::lemma_vals_wf;
use crate::field::dft::all_wf;
use crate::field::fermat::lemma_no_zero_divisors;
use crate::field::model::{
    Elt, elt0, elt1, group_elt_wf, lemma_mul_assoc, lemma_mul_comm, lemma_mul_dist,
    lemma_mul_one_zero, lemma_sub_self, lemma_sub_zero_iff,
};
use crate::field::packed_laws::lemma_product_concat;
use crate::field::types::{Field, vals};
use crate::plonk::circuit_builder::product_to;
use crate::util::partial_products::{
    accumulators, check_term, chunk, chunk_count, lemma_chunk_bounds, lemma_s_check,
    lemma_s_product, product, running_products, s_check, s_product,
};
use vstd::prelude::*;

verus! {

proof fn lemma_product_wf(s: Seq<Elt>, n: nat)
    ensures
        product_to(s, n).wf(),
{
    broadcast use group_elt_wf;

}

/// `(a b) (c d) == (a c) (b d)`.
proof fn lemma_mul_exchange(a: Elt, b: Elt, c: Elt, d: Elt)
    requires
        a.wf(),
        b.wf(),
        c.wf(),
        d.wf(),
    ensures
        (a * b) * (c * d) == (a * c) * (b * d),
{
    broadcast use group_elt_wf;

    lemma_mul_assoc(a, b, c * d);
    lemma_mul_assoc(b, c, d);
    lemma_mul_comm(b, c);
    lemma_mul_assoc(c, b, d);
    lemma_mul_assoc(a, c, b * d);
}

/// A product of products is the product of the products.
proof fn lemma_product_of_products(a: Seq<Elt>, b: Seq<Elt>, c: Seq<Elt>, n: nat)
    requires
        all_wf(a),
        all_wf(b),
        n <= a.len(),
        n <= b.len(),
        n <= c.len(),
        forall|i: int| 0 <= i < n ==> #[trigger] c[i] == a[i] * b[i],
    ensures
        product_to(c, n) == product_to(a, n) * product_to(b, n),
    decreases n,
{
    if n == 0 {
        lemma_mul_one_zero(elt1());
    } else {
        let m = (n - 1) as nat;
        lemma_product_of_products(a, b, c, m);
        lemma_product_wf(a, m);
        lemma_product_wf(b, m);
        lemma_mul_exchange(product_to(a, m), product_to(b, m), a[n - 1], b[n - 1]);
    }
}

/// A product splits at every place.
proof fn lemma_product_split(s: Seq<Elt>, a: nat, b: nat)
    requires
        all_wf(s),
        a <= b <= s.len(),
    ensures
        product_to(s, b) == product_to(s, a) * product(s.subrange(a as int, b as int)),
    decreases b,
{
    lemma_product_wf(s, a);
    if a == b {
        lemma_mul_one_zero(product_to(s, a));
    } else {
        let c = (b - 1) as nat;
        lemma_product_split(s, a, c);
        let (t, u) = (s.subrange(a as int, b as int), s.subrange(a as int, c as int));
        lemma_product_prefix(t, u, u.len());
        lemma_product_wf(u, u.len());
        assert(t[c - a] == s[c as int]);
        lemma_mul_assoc(product_to(s, a), product(u), s[c as int]);
    }
}

proof fn lemma_product_prefix(t: Seq<Elt>, u: Seq<Elt>, n: nat)
    requires
        n <= t.len(),
        n <= u.len(),
        forall|i: int| 0 <= i < n ==> #[trigger] t[i] == u[i],
    ensures
        product_to(t, n) == product_to(u, n),
    decreases n,
{
    if n > 0 {
        lemma_product_prefix(t, u, (n - 1) as nat);
    }
}

/// The accumulators that [`partial_products_and_z_gx`](crate::util::partial_products) computes
/// from the quotients of the factors: the last running product is `Z(g x)`.
pub open spec fn generated_accumulators<F: Field>(
    z_x: F,
    quotients: Seq<F>,
    max_degree: nat,
) -> Seq<F> {
    let count = chunk_count(quotients.len(), max_degree);
    let products = Seq::new(count, |k: int| s_product(chunk(quotients, max_degree, k)));
    let run = Seq::new(count, |k: int| running_products(z_x, products, (k + 1) as nat));
    accumulators(z_x, run.drop_last(), run.last())
}

/// If each numerator is its quotient times its denominator, then the computed running products
/// make every check zero.
pub proof fn lemma_generated_products_pass<F: Field>(
    numerators: Seq<F>,
    denominators: Seq<F>,
    quotients: Seq<F>,
    z_x: F,
    max_degree: nat,
    k: int,
)
    requires
        max_degree > 1,
        numerators.len() == quotients.len(),
        denominators.len() == quotients.len(),
        forall|i: int|
            0 <= i < quotients.len() ==> (#[trigger] numerators[i]).v() == quotients[i].v()
                * denominators[i].v(),
        0 <= k < chunk_count(quotients.len(), max_degree),
    ensures
        s_check(
            numerators,
            denominators,
            generated_accumulators(z_x, quotients, max_degree),
            max_degree,
            k,
        ).v() == elt0(),
{
    broadcast use group_elt_wf;

    let n = quotients.len();
    let count = chunk_count(n, max_degree);
    let products = Seq::new(count, |j: int| s_product(chunk(quotients, max_degree, j)));
    let accs = generated_accumulators(z_x, quotients, max_degree);
    lemma_chunk_bounds(n, max_degree, k);
    let hi = if k * max_degree + max_degree <= n {
        k * max_degree + max_degree
    } else {
        n as int
    };
    let lo = k * max_degree;
    let (a, b, c) = (
        chunk(quotients, max_degree, k),
        chunk(denominators, max_degree, k),
        chunk(numerators, max_degree, k),
    );
    assert forall|i: int| 0 <= i < a.len() implies #[trigger] vals(c)[i] == vals(a)[i] * vals(
        b,
    )[i] by {
        assert(c[i] == numerators[lo + i] && a[i] == quotients[lo + i] && b[i] == denominators[lo
            + i]);
    }
    assert forall|i: int| 0 <= i < a.len() implies (#[trigger] vals(a)[i]).wf() && vals(
        b,
    )[i].wf() by {
        F::lemma_values(a[i]);
        F::lemma_values(b[i]);
    }
    assert forall|i: int| 0 <= i < b.len() implies (#[trigger] vals(b)[i]).wf() by {
        F::lemma_values(b[i]);
    }
    lemma_product_of_products(vals(a), vals(b), vals(c), a.len());
    lemma_s_product(a, a.len());
    lemma_s_product(b, b.len());
    lemma_s_product(c, c.len());
    assert(accs[k] == running_products(z_x, products, k as nat));
    assert(accs[k + 1] == running_products(z_x, products, (k + 1) as nat));
    assert(accs[k + 1] == accs[k].s_mul(products[k]));
    let (pa, pb, pc) = (s_product(a), s_product(b), s_product(c));
    F::lemma_ops(accs[k], pa);
    F::lemma_ops(accs[k], pc);
    F::lemma_ops(accs[k + 1], pb);
    F::lemma_ops(accs[k].s_mul(pc), accs[k + 1].s_mul(pb));
    F::lemma_values(accs[k]);
    F::lemma_values(pa);
    F::lemma_values(pb);
    lemma_mul_assoc(accs[k].v(), pa.v(), pb.v());
    lemma_sub_self(accs[k].v() * pc.v());
}

proof fn lemma_product_nonzero(s: Seq<Elt>, n: nat)
    requires
        all_wf(s),
        n <= s.len(),
        forall|i: int| 0 <= i < n ==> #[trigger] s[i] != elt0(),
    ensures
        product_to(s, n) != elt0(),
    decreases n,
{
    if n > 0 {
        let m = (n - 1) as nat;
        lemma_product_nonzero(s, m);
        lemma_product_wf(s, m);
        if product_to(s, n) == elt0() {
            lemma_no_zero_divisors(product_to(s, m), s[n - 1]);
        }
    }
}

/// Where no denominator is zero, the checks are zero for nothing but the computed running products:
/// accumulators that start at `Z(x)` and make every check zero have their values.
pub proof fn lemma_checks_determine_products<F: Field>(
    numerators: Seq<F>,
    denominators: Seq<F>,
    quotients: Seq<F>,
    accs: Seq<F>,
    max_degree: nat,
    k: nat,
)
    requires
        max_degree > 1,
        quotients.len() > 0,
        numerators.len() == quotients.len(),
        denominators.len() == quotients.len(),
        forall|i: int|
            0 <= i < quotients.len() ==> (#[trigger] numerators[i]).v() == quotients[i].v()
                * denominators[i].v(),
        forall|i: int| 0 <= i < quotients.len() ==> (#[trigger] denominators[i]).v() != elt0(),
        accs.len() == chunk_count(quotients.len(), max_degree) + 1,
        forall|j: int|
            0 <= j < accs.len() - 1 ==> (#[trigger] s_check(
                numerators,
                denominators,
                accs,
                max_degree,
                j,
            )).v() == elt0(),
        k < accs.len(),
    ensures
        accs[k as int].v() == generated_accumulators(accs[0], quotients, max_degree)[k as int].v(),
    decreases k,
{
    broadcast use group_elt_wf;

    let made = generated_accumulators(accs[0], quotients, max_degree);
    if k > 0 {
        let j = (k - 1) as nat;
        lemma_checks_determine_products(numerators, denominators, quotients, accs, max_degree, j);
        lemma_generated_products_pass(
            numerators,
            denominators,
            quotients,
            accs[0],
            max_degree,
            j as int,
        );
        lemma_chunk_bounds(quotients.len(), max_degree, j as int);
        assert(s_check(numerators, denominators, accs, max_degree, j as int).v() == elt0());
        let (b, c) = (
            chunk(denominators, max_degree, j as int),
            chunk(numerators, max_degree, j as int),
        );
        let (pb, pc) = (s_product(b), s_product(c));
        let (x, y) = (accs[k as int], made[k as int]);
        let (u, w) = (accs[j as int], made[j as int]);
        F::lemma_ops(u, pc);
        F::lemma_ops(w, pc);
        F::lemma_ops(x, pb);
        F::lemma_ops(y, pb);
        F::lemma_ops(u.s_mul(pc), x.s_mul(pb));
        F::lemma_ops(w.s_mul(pc), y.s_mul(pb));
        F::lemma_values(u);
        F::lemma_values(w);
        F::lemma_values(x);
        F::lemma_values(y);
        F::lemma_values(pb);
        F::lemma_values(pc);
        lemma_sub_zero_iff(u.v() * pc.v(), x.v() * pb.v());
        lemma_sub_zero_iff(w.v() * pc.v(), y.v() * pb.v());
        assert(x.v() * pb.v() == y.v() * pb.v());
        assert forall|i: int| 0 <= i < b.len() implies (#[trigger] vals(b)[i]).wf() && vals(b)[i]
            != elt0() by {
            F::lemma_values(b[i]);
            assert(b[i] == denominators[j * max_degree + i]);
        }
        lemma_s_product(b, b.len());
        lemma_product_nonzero(vals(b), b.len());
        lemma_mul_comm(pb.v(), x.v());
        lemma_mul_comm(pb.v(), y.v());
        lemma_mul_dist(pb.v(), x.v(), y.v());
        lemma_sub_self(x.v() * pb.v());
        lemma_no_zero_divisors(pb.v(), x.v() - y.v());
        lemma_sub_zero_iff(x.v(), y.v());
    }
}

/// The end of the first `k` chunks.
spec fn chunks_end(n: nat, size: nat, k: int) -> nat {
    if k * size <= n {
        (k * size) as nat
    } else {
        n
    }
}

proof fn lemma_accumulated(
    numerators: Seq<Elt>,
    denominators: Seq<Elt>,
    accs: Seq<Elt>,
    max_degree: nat,
    k: nat,
)
    requires
        max_degree > 1,
        all_wf(numerators),
        all_wf(denominators),
        all_wf(accs),
        chunk_count(denominators.len(), max_degree) == chunk_count(numerators.len(), max_degree),
        accs.len() == chunk_count(numerators.len(), max_degree) + 1,
        k < accs.len(),
        forall|i: int|
            0 <= i < accs.len() - 1 ==> #[trigger] check_term(
                numerators,
                denominators,
                accs,
                max_degree,
                i,
            ) == elt0(),
    ensures
        accs[k as int] * product_to(
            denominators,
            chunks_end(denominators.len(), max_degree, k as int),
        ) == accs[0] * product_to(
            numerators,
            chunks_end(numerators.len(), max_degree, k as int),
        ),
    decreases k,
{
    broadcast use group_elt_wf;

    if k == 0 {
        assert(0 * max_degree == 0);
    } else {
        let j = (k - 1) as nat;
        lemma_accumulated(numerators, denominators, accs, max_degree, j);
        lemma_chunk_bounds(numerators.len(), max_degree, j as int);
        lemma_chunk_bounds(denominators.len(), max_degree, j as int);
        let (na, nb) = (
            chunks_end(numerators.len(), max_degree, j as int),
            chunks_end(numerators.len(), max_degree, k as int),
        );
        let (da, db) = (
            chunks_end(denominators.len(), max_degree, j as int),
            chunks_end(denominators.len(), max_degree, k as int),
        );
        lemma_product_split(numerators, na, nb);
        lemma_product_split(denominators, da, db);
        let (cn, cd) = (
            chunk(numerators, max_degree, j as int),
            chunk(denominators, max_degree, j as int),
        );
        assert(cn == numerators.subrange(na as int, nb as int));
        assert(cd == denominators.subrange(da as int, db as int));
        let (pn, pd) = (product(cn), product(cd));
        let (sn, sd) = (product_to(numerators, na), product_to(denominators, da));
        lemma_product_wf(cn, cn.len());
        lemma_product_wf(cd, cd.len());
        lemma_product_wf(numerators, na);
        lemma_product_wf(denominators, da);
        let (prev, next) = (accs[j as int], accs[k as int]);
        assert(check_term(numerators, denominators, accs, max_degree, j as int) == elt0());
        lemma_sub_zero_iff(prev * pn, next * pd);
        // next (sd pd) == (next pd) sd == (prev pn) sd == (prev sd) pn == (z sn) pn == z (sn pn)
        lemma_mul_comm(sd, pd);
        lemma_mul_assoc(next, pd, sd);
        lemma_mul_assoc(prev, pn, sd);
        lemma_mul_comm(pn, sd);
        lemma_mul_assoc(prev, sd, pn);
        lemma_mul_assoc(accs[0], sn, pn);
    }
}

/// If every check is zero, then `Z(g x)` times all denominators is `Z(x)` times all numerators.
pub proof fn lemma_checks_sound<F: Field>(
    numerators: Seq<F>,
    denominators: Seq<F>,
    partials: Seq<F>,
    z_x: F,
    z_gx: F,
    max_degree: nat,
)
    requires
        max_degree > 1,
        chunk_count(numerators.len(), max_degree) == partials.len() + 1,
        chunk_count(denominators.len(), max_degree) == partials.len() + 1,
        forall|k: int|
            0 <= k <= partials.len() ==> (#[trigger] s_check(
                numerators,
                denominators,
                accumulators(z_x, partials, z_gx),
                max_degree,
                k,
            )).v() == elt0(),
    ensures
        z_gx.v() * product(vals(denominators)) == z_x.v() * product(vals(numerators)),
{
    let accs = accumulators(z_x, partials, z_gx);
    let count = partials.len() + 1;
    let (nv, dv, av) = (vals(numerators), vals(denominators), vals(accs));
    assert forall|i: int| 0 <= i < nv.len() implies (#[trigger] nv[i]).wf() by {
        F::lemma_values(numerators[i]);
    }
    assert forall|i: int| 0 <= i < dv.len() implies (#[trigger] dv[i]).wf() by {
        F::lemma_values(denominators[i]);
    }
    assert forall|i: int| 0 <= i < av.len() implies (#[trigger] av[i]).wf() by {
        F::lemma_values(accs[i]);
    }
    assert forall|i: int| 0 <= i < av.len() - 1 implies #[trigger] check_term(
        nv,
        dv,
        av,
        max_degree,
        i,
    ) == elt0() by {
        lemma_s_check(numerators, denominators, accs, max_degree, i);
        assert(s_check(numerators, denominators, accs, max_degree, i).v() == elt0());
    }
    lemma_accumulated(nv, dv, av, max_degree, count);
    lemma_chunk_bounds(numerators.len(), max_degree, count - 1);
    lemma_chunk_bounds(denominators.len(), max_degree, count - 1);
    assert(av[0] == z_x.v());
    assert(av[count as int] == z_gx.v());
}

/// The number of chunks is the least number of chunks that hold all elements.
pub proof fn lemma_chunk_count(n: nat, size: nat)
    requires
        size > 0,
    ensures
        n <= chunk_count(n, size) * size,
        n > 0 ==> (chunk_count(n, size) - 1) * size < n,
        n == 0 ==> chunk_count(n, size) == 0,
{
    let (q, m) = (n as int / size as int, n as int % size as int);
    vstd::arithmetic::div_mod::lemma_fundamental_div_mod(n as int, size as int);
    vstd::arithmetic::div_mod::lemma_mod_bound(n as int, size as int);
    assert(q * size == size * q) by (nonlinear_arith);
    assert((q + 1) * size == q * size + size) by (nonlinear_arith);
    assert((q - 1) * size == q * size - size) by (nonlinear_arith);
    if n == 0 {
        vstd::arithmetic::div_mod::lemma_basic_div(0, size as int);
        vstd::arithmetic::div_mod::lemma_small_mod(0, size);
    }
}

/// A running product is worth `z_x` times the product of all factors of its chunks, whatever the
/// number of chunks.
pub proof fn lemma_running_product_value<F: Field>(
    z_x: F,
    quotients: Seq<F>,
    max_degree: nat,
    k: nat,
)
    requires
        max_degree > 1,
        k <= chunk_count(quotients.len(), max_degree),
    ensures
        ({
            let n = quotients.len();
            let products = Seq::new(
                chunk_count(n, max_degree),
                |j: int| s_product(chunk(quotients, max_degree, j)),
            );
            let end = if k * max_degree < n {
                k * max_degree
            } else {
                n
            };
            running_products(z_x, products, k).v() == z_x.v() * product(
                vals(quotients.take(end as int)),
            )
        }),
    decreases k,
{
    broadcast use group_elt_wf;

    let n = quotients.len();
    let products = Seq::new(
        chunk_count(n, max_degree),
        |j: int| s_product(chunk(quotients, max_degree, j)),
    );
    F::lemma_values(z_x);
    if k == 0 {
        assert(0 * max_degree == 0);
        assert(quotients.take(0).len() == 0);
        lemma_mul_one_zero(z_x.v());
    } else {
        let m = (k - 1) as nat;
        lemma_running_product_value(z_x, quotients, max_degree, m);
        lemma_chunk_bounds(n, max_degree, m as int);
        let lo = m * max_degree;
        let end = if k * max_degree < n {
            k * max_degree
        } else {
            n
        };
        let part = chunk(quotients, max_degree, m as int);
        let before = quotients.take(lo as int);
        assert(quotients.take(end as int) =~= before + part);
        assert(vals(before + part) =~= vals(before) + vals(part));
        lemma_vals_wf(before);
        lemma_vals_wf(part);
        lemma_product_concat(vals(before), vals(part), elt1());
        lemma_product_concat(vals(part), vals(part), elt1());
        lemma_s_product(part, part.len());
        F::lemma_ops(running_products(z_x, products, m), s_product(part));
        lemma_mul_assoc(z_x.v(), product(vals(before)), product(vals(part)));
    }
}

} // verus!
