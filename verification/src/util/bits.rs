//! Powers of two and bit-reversed indices.

use vstd::arithmetic::power2::{lemma_pow2_pos, lemma_pow2_strictly_increases, lemma_pow2_unfold, pow2};
use vstd::prelude::*;

verus! {

/// `i` with its lowest `bits` bits in the opposite order.
pub open spec fn rev(i: nat, bits: nat) -> nat
    decreases bits,
{
    if bits == 0 {
        0
    } else {
        (i % 2) * pow2((bits - 1) as nat) + rev(i / 2, (bits - 1) as nat)
    }
}

/// Facts on small powers of two.
pub proof fn lemma_pow2_basics()
    ensures
        pow2(0) == 1,
        pow2(1) == 2,
        pow2(2) == 4,
        pow2(3) == 8,
        pow2(4) == 16,
{
    vstd::arithmetic::power2::lemma2_to64();
}

/// Doubling a power of two.
pub proof fn lemma_pow2_double(e: nat)
    ensures
        pow2(e + 1) == 2 * pow2(e),
        pow2(e) >= 1,
{
    lemma_pow2_pos(e);
    lemma_pow2_unfold(e + 1);
}

/// Powers of two grow with the exponent.
pub proof fn lemma_pow2_mono(a: nat, b: nat)
    requires
        a <= b,
    ensures
        pow2(a) <= pow2(b),
{
    if a < b {
        lemma_pow2_strictly_increases(a, b);
    }
}

/// A power of two exceeds its exponent.
pub proof fn lemma_pow2_exceeds(e: nat)
    ensures
        pow2(e) > e,
    decreases e,
{
    if e == 0 {
        lemma_pow2_basics();
    } else {
        lemma_pow2_exceeds((e - 1) as nat);
        lemma_pow2_double((e - 1) as nat);
    }
}

/// Exponents of equal powers of two agree.
pub proof fn lemma_pow2_injective(a: nat, b: nat)
    requires
        pow2(a) == pow2(b),
    ensures
        a == b,
{
    if a < b {
        lemma_pow2_strictly_increases(a, b);
    } else if b < a {
        lemma_pow2_strictly_increases(b, a);
    }
}

/// Whether `n` is a power of two.
pub open spec fn is_power_of_two(n: nat) -> bool {
    exists|k: nat| pow2(k) == n
}

/// The exponent of a power of two.
pub open spec fn log2(n: nat) -> nat {
    choose|k: nat| pow2(k) == n
}

/// `log2` undoes `pow2`.
pub proof fn lemma_log2(k: nat)
    ensures
        is_power_of_two(pow2(k)),
        log2(pow2(k)) == k,
{
    lemma_pow2_injective(k, log2(pow2(k)));
}

/// A reversed index is in range.
pub proof fn lemma_rev_bound(i: nat, bits: nat)
    ensures
        rev(i, bits) < pow2(bits),
    decreases bits,
{
    lemma_pow2_pos(bits);
    if bits > 0 {
        lemma_rev_bound(i / 2, (bits - 1) as nat);
        lemma_pow2_double((bits - 1) as nat);
        let h = pow2((bits - 1) as nat);
        assert((i % 2) * h <= h) by (nonlinear_arith)
            requires
                i % 2 <= 1,
        ;
    }
}

/// The top bit of an index becomes the lowest bit of the reversed one.
pub proof fn lemma_rev_top(i: nat, t: nat, bits: nat)
    requires
        i < pow2(bits),
        t <= 1,
    ensures
        rev(i + t * pow2(bits), bits + 1) == 2 * rev(i, bits) + t,
    decreases bits,
{
    let x = i + t * pow2(bits);
    lemma_pow2_basics();
    if bits == 0 {
        assert(i == 0);
        assert(t * pow2(0) == t) by (nonlinear_arith)
            requires
                pow2(0) == 1,
        ;
        assert(t % 2 == t);
        assert(rev(x, 1) == (x % 2) * pow2(0) + rev(x / 2, 0));
    } else {
        let b = (bits - 1) as nat;
        lemma_pow2_double(b);
        let h = pow2(b);
        assert(t * pow2(bits) == 2 * (t * h)) by (nonlinear_arith)
            requires
                pow2(bits) == 2 * h,
        ;
        assert(x % 2 == i % 2 && x / 2 == i / 2 + t * h);
        lemma_rev_top(i / 2, t, b);
        assert(rev(x, bits + 1) == (x % 2) * pow2(bits) + rev(x / 2, bits));
        assert(rev(i, bits) == (i % 2) * h + rev(i / 2, b));
        assert((i % 2) * pow2(bits) == 2 * ((i % 2) * h)) by (nonlinear_arith)
            requires
                pow2(bits) == 2 * h,
        ;
    }
}

/// Bit reversal undoes itself.
pub proof fn lemma_rev_involution(i: nat, bits: nat)
    requires
        i < pow2(bits),
    ensures
        rev(rev(i, bits), bits) == i,
    decreases bits,
{
    lemma_pow2_basics();
    if bits > 0 {
        let b = (bits - 1) as nat;
        lemma_pow2_double(b);
        lemma_rev_bound(i / 2, b);
        lemma_rev_top(rev(i / 2, b), i % 2, b);
        lemma_rev_involution(i / 2, b);
    }
}

/// Even and odd indices reverse into the lower and the upper half.
pub proof fn lemma_rev_double(i: nat, bits: nat)
    ensures
        rev(2 * i, bits + 1) == rev(i, bits),
        rev(2 * i + 1, bits + 1) == pow2(bits) + rev(i, bits),
{
    assert((2 * i) % 2 == 0 && (2 * i) / 2 == i);
    assert((2 * i + 1) % 2 == 1 && (2 * i + 1) / 2 == i);
    assert(0 * pow2(bits) == 0 && 1 * pow2(bits) == pow2(bits));
}

/// `2^k`.
pub fn two_pow(k: usize) -> (r: usize)
    requires
        pow2(k as nat) <= usize::MAX,
    ensures
        r == pow2(k as nat),
{
    let mut r: usize = 1;
    let mut i: usize = 0;
    proof {
        lemma_pow2_basics();
    }
    while i < k
        invariant
            i <= k,
            r == pow2(i as nat),
            pow2(k as nat) <= usize::MAX,
        decreases k - i,
    {
        proof {
            lemma_pow2_double(i as nat);
            lemma_pow2_mono(i as nat + 1, k as nat);
        }
        r = 2 * r;
        i = i + 1;
    }
    r
}

/// The base-two logarithm of a power of two.
pub fn log2_strict(n: usize) -> (r: usize)
    requires
        is_power_of_two(n as nat),
    ensures
        pow2(r as nat) == n,
        r == log2(n as nat),
{
    let ghost e = choose|k: nat| pow2(k) == n;
    let mut r: usize = 0;
    let mut p: usize = 1;
    proof {
        lemma_pow2_basics();
        lemma_pow2_pos(e);
        lemma_pow2_exceeds(e);
    }
    while p < n
        invariant
            pow2(e) == n,
            p == pow2(r as nat),
            p <= n,
            r <= e < n,
        decreases n - p,
    {
        proof {
            lemma_pow2_double(r as nat);
            if r == e {
            } else {
                lemma_pow2_mono(r as nat + 1, e);
            }
        }
        p = 2 * p;
        r = r + 1;
    }
    proof {
        lemma_log2(r as nat);
    }
    r
}

/// Higher bits do not matter.
pub proof fn lemma_rev_mod(i: nat, bits: nat)
    ensures
        rev((i as int % pow2(bits) as int) as nat, bits) == rev(i, bits),
    decreases bits,
{
    if bits > 0 {
        let b = (bits - 1) as nat;
        let p = pow2(b) as int;
        lemma_pow2_double(b);
        lemma_pow2_pos(b);
        let small = i as int % (2 * p);
        let c = i as int / (2 * p);
        vstd::arithmetic::div_mod::lemma_fundamental_div_mod(i as int, 2 * p);
        assert((2 * p) * c == 2 * (p * c)) by (nonlinear_arith);
        assert(p * c == c * p) by (nonlinear_arith);
        assert(small % 2 == i % 2);
        assert(i as int / 2 == c * p + small / 2);
        vstd::arithmetic::div_mod::lemma_fundamental_div_mod_converse(
            i as int / 2,
            p,
            c,
            small / 2,
        );
        lemma_rev_mod(i / 2, b);
    }
}

/// `n` with its lowest `num_bits` bits in the opposite order; higher bits are dropped.
pub fn reverse_bits(n: usize, num_bits: usize) -> (r: usize)
    requires
        pow2(num_bits as nat) <= usize::MAX + 1,
    ensures
        r == rev(n as nat, num_bits as nat),
        r < pow2(num_bits as nat),
{
    let mut rest: usize = n;
    let mut acc: usize = 0;
    let mut i: usize = 0;
    proof {
        lemma_pow2_basics();
        lemma_rev_bound(n as nat, num_bits as nat);
        assert(0 * pow2(num_bits as nat) == 0);
    }
    while i < num_bits
        invariant
            i <= num_bits,
            acc < pow2(i as nat),
            rev(n as nat, num_bits as nat) == acc * pow2((num_bits - i) as nat) + rev(
                rest as nat,
                (num_bits - i) as nat,
            ),
            rev(n as nat, num_bits as nat) < pow2(num_bits as nat) <= usize::MAX + 1,
        decreases num_bits - i,
    {
        let ghost left = (num_bits - i - 1) as nat;
        let ghost (a, b) = (acc as int, (rest % 2) as int);
        proof {
            lemma_pow2_double(left);
            lemma_pow2_double(i as nat);
            lemma_pow2_mono(i as nat + 1, num_bits as nat);
            let h = pow2(left) as int;
            assert(a * pow2((left + 1) as nat) + b * h == (2 * a + b) * h) by (nonlinear_arith)
                requires
                    pow2((left + 1) as nat) == 2 * h,
            ;
        }
        acc = 2 * acc + rest % 2;
        rest = rest / 2;
        i = i + 1;
    }
    proof {
        assert(acc * pow2(0) == acc) by (nonlinear_arith)
            requires
                pow2(0) == 1,
        ;
    }
    acc
}

/// Permutes a slice so that entry `i` holds what entry `rev(i)` held.
pub fn reverse_index_bits_in_place<T: Copy>(arr: &mut [T], len: usize, bits: usize)
    requires
        len == pow2(bits as nat),
        len <= old(arr)@.len(),
    ensures
        final(arr)@.len() == old(arr)@.len(),
        forall|k: int|
            0 <= k < len ==> #[trigger] final(arr)@[k] == old(arr)@[rev(k as nat, bits as nat) as int],
        forall|k: int| len <= k < old(arr)@.len() ==> #[trigger] final(arr)@[k] == old(arr)@[k],
{
    let ghost a0 = arr@;
    let mut i: usize = 0;
    while i < len
        invariant
            i <= len == pow2(bits as nat),
            len <= arr@.len() == a0.len(),
            forall|k: int|
                #![trigger arr@[k]]
                0 <= k < len ==> arr@[k] == (if k < i || rev(k as nat, bits as nat) < i {
                    a0[rev(k as nat, bits as nat) as int]
                } else {
                    a0[k]
                }),
            forall|k: int| len <= k < a0.len() ==> #[trigger] arr@[k] == a0[k],
        decreases len - i,
    {
        let j: usize = reverse_bits(i, bits);
        let ghost before = arr@;
        proof {
            lemma_rev_involution(i as nat, bits as nat);
            assert forall|k: int| #![trigger arr@[k]] 0 <= k < len implies rev(
                rev(k as nat, bits as nat),
                bits as nat,
            ) == k by {
                lemma_rev_involution(k as nat, bits as nat);
            }
        }
        if i < j {
            let x = arr[i];
            let y = arr[j];
            arr[i] = y;
            arr[j] = x;
        }
        i = i + 1;
    }
}

} // verus!
