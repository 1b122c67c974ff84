//! Running products over chunks.

use plonky2::field::extension::QuadraticExtension;
use plonky2::field::goldilocks_field::GoldilocksField;
use plonky2::field::types::Field;
use plonky2::gates::gate::CircuitConfig;
use plonky2::plonk::circuit_builder::{CircuitBuilder, ExtensionNode};
use plonky2::util::partial_products::{
    check_partial_products, check_partial_products_circuit, check_partial_products_into,
    num_partial_products, partial_products_and_z_gx, quotient_chunk_products,
    quotient_chunk_products_into,
};

type F = GoldilocksField;

fn field_vec(xs: &[u64]) -> Vec<F> {
    xs.iter().map(|&x| F::from_noncanonical_u64(x)).collect()
}

#[test]
fn test_partial_products() {
    let denominators = vec![F::one(); 6];
    let z_x = F::one();
    let v = field_vec(&[1, 2, 3, 4, 5, 6]);
    let z_gx = F::from_canonical_u64(720);
    let quotient_chunks_prods = quotient_chunk_products(&v, 2);
    assert_eq!(quotient_chunks_prods, field_vec(&[2, 12, 30]));
    let pps_and_z_gx = partial_products_and_z_gx(z_x, &quotient_chunks_prods);
    let pps = &pps_and_z_gx[..pps_and_z_gx.len() - 1];
    assert_eq!(pps_and_z_gx, field_vec(&[2, 24, 720]));

    let nums = num_partial_products(v.len(), 2);
    assert_eq!(pps.len(), nums);
    assert!(check_partial_products(&v, &denominators, pps, z_x, z_gx, 2)
        .iter()
        .all(|x| x.is_zero()));

    let quotient_chunks_prods = quotient_chunk_products(&v, 3);
    assert_eq!(quotient_chunks_prods, field_vec(&[6, 120]));
    let pps_and_z_gx = partial_products_and_z_gx(z_x, &quotient_chunks_prods);
    let pps = &pps_and_z_gx[..pps_and_z_gx.len() - 1];
    assert_eq!(pps_and_z_gx, field_vec(&[6, 720]));
    let nums = num_partial_products(v.len(), 3);
    assert_eq!(pps.len(), nums);
    assert!(check_partial_products(&v, &denominators, pps, z_x, z_gx, 3)
        .iter()
        .all(|x| x.is_zero()));
}

fn product(chunk: &[F]) -> F {
    chunk.iter().fold(F::one(), |acc, &x| acc.mul(x))
}

/// The checks, written with iterators.
fn check_partial_products_reference(
    numerators: &[F],
    denominators: &[F],
    partials: &[F],
    z_x: F,
    z_gx: F,
    max_degree: usize,
) -> Vec<F> {
    let accs = [vec![z_x], partials.to_vec(), vec![z_gx]].concat();
    numerators
        .chunks(max_degree)
        .zip(denominators.chunks(max_degree))
        .zip(accs.windows(2))
        .map(|((nume_chunk, deno_chunk), pair)| {
            pair[0].mul(product(nume_chunk)).sub(pair[1].mul(product(deno_chunk)))
        })
        .collect()
}

/// Deterministic, mostly-noncanonical values so raw-representation comparisons are meaningful.
fn noncanonical_vec(len: usize, seed: u64) -> Vec<F> {
    (0..len as u64)
        .map(|i| {
            F::from_noncanonical_u64(
                u64::MAX - seed.wrapping_mul(0x9e37_79b9_7f4a_7c15).wrapping_add(3 * i),
            )
        })
        .collect()
}

fn raw(values: &[F]) -> Vec<u64> {
    values.iter().map(|x| x.to_noncanonical_u64()).collect()
}

#[test]
fn test_quotient_chunk_products_into_matches_legacy() {
    // (len, max_degree): 8/2 and 80/8 have all-full chunks, 7/3 has a partial final chunk.
    for &(len, max_degree) in &[(8usize, 2usize), (80, 8), (7, 3)] {
        let quotient_values = noncanonical_vec(len, 5);
        let expected = quotient_values.chunks(max_degree).map(product).collect::<Vec<_>>();
        let num_chunks = len.div_ceil(max_degree);
        assert_eq!(expected.len(), num_chunks);

        let wrapped = quotient_chunk_products(&quotient_values, max_degree);
        assert_eq!(raw(&wrapped), raw(&expected));
        assert_eq!(wrapped.capacity(), num_chunks);

        // Flat-buffer form: write point products at an interior offset.
        let mut flat = vec![F::zero(); 3 * num_chunks];
        quotient_chunk_products_into(
            &quotient_values,
            max_degree,
            &mut flat[num_chunks..2 * num_chunks],
        );
        assert_eq!(raw(&flat[num_chunks..2 * num_chunks]), raw(&expected));
        // Neighboring points' slots untouched.
        assert!(flat[..num_chunks]
            .iter()
            .chain(&flat[2 * num_chunks..])
            .all(|x| x.to_noncanonical_u64() == 0));
    }
}

#[test]
fn test_check_partial_products_into_matches_legacy() {
    // (len, max_degree): 8/2 has all-full chunks, 7/3 has a partial final chunk.
    for &(len, max_degree) in &[(8usize, 2usize), (7, 3)] {
        let numerators = noncanonical_vec(len, 1);
        let denominators = noncanonical_vec(len, 2);
        let num_partials = len.div_ceil(max_degree) - 1;
        let partials = noncanonical_vec(num_partials, 3);
        let z_x = F::from_noncanonical_u64(u64::MAX);
        let z_gx = F::from_noncanonical_u64(u64::MAX - 7);

        let expected = check_partial_products_reference(
            &numerators,
            &denominators,
            &partials,
            z_x,
            z_gx,
            max_degree,
        );
        assert_eq!(expected.len(), len.div_ceil(max_degree));

        let mut out = Vec::new();
        check_partial_products_into(
            &numerators,
            &denominators,
            &partials,
            z_x,
            z_gx,
            max_degree,
            &mut out,
        );
        assert_eq!(raw(&out), raw(&expected));

        let wrapped =
            check_partial_products(&numerators, &denominators, &partials, z_x, z_gx, max_degree);
        assert_eq!(raw(&wrapped), raw(&expected));
        assert_eq!(wrapped.capacity(), len.div_ceil(max_degree));
    }
}

#[test]
fn test_check_partial_products_into_appends_after_prefix() {
    let len = 8usize;
    let max_degree = 2usize;
    let num_partials = len.div_ceil(max_degree) - 1;

    let mut expected_terms = Vec::new();
    let mut challenge_inputs = Vec::new();
    for challenge in 0..2u64 {
        let numerators = noncanonical_vec(len, 10 + challenge);
        let denominators = noncanonical_vec(len, 20 + challenge);
        let partials = noncanonical_vec(num_partials, 30 + challenge);
        let z_x = F::from_noncanonical_u64(u64::MAX - challenge);
        let z_gx = F::from_noncanonical_u64(u64::MAX - 100 - challenge);
        expected_terms.extend(check_partial_products_reference(
            &numerators,
            &denominators,
            &partials,
            z_x,
            z_gx,
            max_degree,
        ));
        challenge_inputs.push((numerators, denominators, partials, z_x, z_gx));
    }

    let sentinel = F::from_noncanonical_u64(u64::MAX - 42);
    let mut out = Vec::with_capacity(1 + expected_terms.len());
    out.push(sentinel);
    let base_ptr = out.as_ptr();
    for (numerators, denominators, partials, z_x, z_gx) in &challenge_inputs {
        check_partial_products_into(
            numerators,
            denominators,
            partials,
            *z_x,
            *z_gx,
            max_degree,
            &mut out,
        );
    }
    // Sufficient spare capacity: appending must not have reallocated.
    assert_eq!(out.as_ptr(), base_ptr);
    assert_eq!(out[0].to_noncanonical_u64(), sentinel.to_noncanonical_u64());
    assert_eq!(raw(&out[1..]), raw(&expected_terms));

    // Forced growth: capacity exhausted by the sentinel alone. Prefix and
    // terms must survive the reallocation.
    let mut small = Vec::with_capacity(1);
    small.push(sentinel);
    let (numerators, denominators, partials, z_x, z_gx) = &challenge_inputs[0];
    check_partial_products_into(
        numerators,
        denominators,
        partials,
        *z_x,
        *z_gx,
        max_degree,
        &mut small,
    );
    assert_eq!(
        small[0].to_noncanonical_u64(),
        sentinel.to_noncanonical_u64()
    );
    assert_eq!(
        raw(&small[1..]),
        raw(&expected_terms[..len.div_ceil(max_degree)])
    );
}

#[test]
fn quotients_make_the_checks_zero() {
    let denominators = field_vec(&[2, 3, 5, 7, 11, 13, 17]);
    let quotients = noncanonical_vec(7, 6);
    let numerators = quotients
        .iter()
        .zip(&denominators)
        .map(|(&q, &d)| q.mul(d))
        .collect::<Vec<_>>();
    let z_x = F::from_canonical_u64(19);
    for max_degree in [2, 3, 7, 8] {
        let all = partial_products_and_z_gx(z_x, &quotient_chunk_products(&quotients, max_degree));
        let (z_gx, partials) = all.split_last().unwrap();
        let checks =
            check_partial_products(&numerators, &denominators, partials, z_x, *z_gx, max_degree);
        assert!(checks.iter().all(|x| x.is_zero()));
        assert_eq!(
            z_gx.mul(product(&denominators)),
            z_x.mul(product(&numerators))
        );
    }
}

#[test]
fn only_the_computed_products_make_the_checks_zero() {
    let denominators = field_vec(&[2, 3, 5, 7, 11, 13, 17]);
    let quotients = noncanonical_vec(7, 6);
    let numerators = quotients
        .iter()
        .zip(&denominators)
        .map(|(&q, &d)| q.mul(d))
        .collect::<Vec<_>>();
    let z_x = F::from_canonical_u64(19);
    for max_degree in [2, 3, 7, 8] {
        let all = partial_products_and_z_gx(z_x, &quotient_chunk_products(&quotients, max_degree));
        for k in 0..all.len() {
            let mut changed = all.clone();
            changed[k] = changed[k].add(F::from_canonical_u64(1));
            let (z_gx, partials) = changed.split_last().unwrap();
            let checks = check_partial_products(
                &numerators,
                &denominators,
                partials,
                z_x,
                *z_gx,
                max_degree,
            );
            assert!(!checks.iter().all(|x| x.is_zero()));
        }
    }
}

#[test]
fn circuit_checks_equal_direct_ones() {
    let numerators = noncanonical_vec(7, 1);
    let denominators = noncanonical_vec(7, 2);
    let partials = noncanonical_vec(2, 3);
    let z_x = F::from_canonical_u64(5);
    let z_gx = F::from_canonical_u64(6);
    let mut builder = CircuitBuilder::new(CircuitConfig::standard_recursion_config());
    let inputs = [numerators.clone(), denominators.clone(), partials.clone(), vec![z_x, z_gx]]
        .concat();
    let targets = inputs
        .iter()
        .map(|_| builder.add_virtual_extension_target())
        .collect::<Vec<_>>();
    let checks = check_partial_products_circuit(
        &mut builder,
        &targets[..7],
        &targets[7..14],
        &targets[14..16],
        targets[16],
        targets[17],
        3,
    );
    let mut values: Vec<QuadraticExtension> = Vec::new();
    for node in &builder.nodes {
        let value = match *node {
            ExtensionNode::Input => QuadraticExtension::from_basefield(inputs[values.len()]),
            ExtensionNode::Constant(c) => c,
            ExtensionNode::Product(a, b) => values[a].mul(values[b]),
            ExtensionNode::ProductMinus(a, b, c) => values[a].mul(values[b]).sub(values[c]),
            _ => panic!("unexpected node"),
        };
        values.push(value);
    }
    let expected = check_partial_products(&numerators, &denominators, &partials, z_x, z_gx, 3);
    for (target, expected) in checks.iter().zip(expected) {
        assert_eq!(values[target.index], QuadraticExtension::from_basefield(expected));
    }
}
