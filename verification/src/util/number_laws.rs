//! What the digits of a number in text, and the bytes of a number, say of the number.

use crate::util::bits::lemma_pow2_basics;
use crate::util::bytes::{from_le, le_bytes, lemma_le_bytes_len, pow256};
use crate::util::text::{decimal, digit_char};
use vstd::arithmetic::power2::{lemma_pow2_adds, lemma_pow2_pos, pow2};
use vstd::prelude::*;

verus! {

/// The number that decimal digits stand for.
pub open spec fn number_in(s: Seq<char>) -> int
    decreases s.len(),
{
    if s.len() == 0 {
        0
    } else {
        10 * number_in(s.drop_last()) + (s.last() as int - '0' as int)
    }
}

/// A number in decimal is made of digits, does not start with a zero unless it is one digit long,
/// and stands for the number.
pub proof fn lemma_decimal(n: nat)
    ensures
        number_in(decimal(n)) == n,
        decimal(n).len() > 0,
        decimal(n).len() > 1 ==> decimal(n)[0] != '0',
        n >= 10 ==> decimal(n).len() == decimal(n / 10).len() + 1,
        forall|i: int| 0 <= i < decimal(n).len() ==> '0' <= #[trigger] decimal(n)[i] <= '9',
    decreases n,
{
    if n < 10 {
        let s = seq![digit_char(n)];
        assert(s.drop_last().len() == 0);
        assert(number_in(s.drop_last()) == 0);
    } else {
        lemma_decimal(n / 10);
        let s = decimal(n);
        assert(s.drop_last() =~= decimal(n / 10));
        assert(s.last() == digit_char(n % 10));
        assert(s[0] == decimal(n / 10)[0]);
        if decimal(n / 10).len() == 1 {
            assert(n / 10 < 10) by {
                if n / 10 >= 10 {
                    lemma_decimal(n / 10 / 10);
                }
            }
            assert(decimal(n / 10)[0] == digit_char(n / 10));
        }
        assert forall|i: int| 0 <= i < s.len() implies '0' <= #[trigger] s[i] <= '9' by {
            if i < s.len() - 1 {
                assert(s[i] == decimal(n / 10)[i]);
            }
        }
    }
}

proof fn lemma_pow256(n: nat)
    ensures
        pow256(n) == pow2(8 * n),
    decreases n,
{
    lemma_pow2_basics();
    if n > 0 {
        lemma_pow256((n - 1) as nat);
        lemma_pow2_adds((8 * n - 8) as nat, 8);
        lemma_pow2_adds(4, 4);
        lemma_pow2_adds(2, 2);
        lemma_pow2_adds(1, 1);
        assert(pow2(8) == 256);
        assert(8 * ((n - 1) as nat) == (8 * n - 8) as nat);
        assert((8 * n - 8) as nat + 8 == 8 * n);
        let (p, q) = (pow2((8 * n - 8) as nat), pow2(8));
        assert(p * q == 256 * p) by (nonlinear_arith)
            requires
                q == 256,
        ;
    }
}

/// Byte `i` of a number is what is left of it after `8 * i` bits, reduced to one byte.
pub proof fn lemma_byte_of_number(x: nat, n: nat, i: nat)
    requires
        i < n,
    ensures
        le_bytes(x, n).len() == n,
        le_bytes(x, n)[i as int] as int == (x as int / pow2(8 * i) as int) % 256,
    decreases n,
{
    lemma_le_bytes_len(x, n);
    lemma_pow2_basics();
    if i == 0 {
        assert(x as int / 1 == x);
        assert((x % 256) as u8 as int == x as int % 256);
    } else {
        let m = (n - 1) as nat;
        let j = (i - 1) as nat;
        lemma_byte_of_number(x / 256, m, j);
        lemma_pow2_adds(8, 8 * j);
        lemma_pow256(1);
        assert(pow256(1) == 256) by {
            reveal_with_fuel(pow256, 2);
        }
        lemma_pow2_pos(8 * j);
        vstd::arithmetic::div_mod::lemma_div_denominator(x as int, 256, pow2(8 * j) as int);
        assert(8 * i == 8 + 8 * j);
        assert(le_bytes(x, n)[i as int] == le_bytes(x / 256, m)[j as int]);
    }
}

/// Bytes that follow others count for the next powers: one byte is worth itself, and `a + b` is
/// worth `a` and `2^(8 * |a|)` times `b`.
pub proof fn lemma_bytes_concat(a: Seq<u8>, b: Seq<u8>, x: u8)
    ensures
        from_le(a + b) == from_le(a) + pow2(8 * a.len()) * from_le(b),
        from_le(seq![x]) == x,
    decreases a.len(),
{
    lemma_pow2_basics();
    assert(seq![x].skip(1).len() == 0);
    assert(from_le(seq![x].skip(1)) == 0);
    if a.len() == 0 {
        assert(a + b =~= b);
        assert(1 * from_le(b) == from_le(b));
    } else {
        let rest = a.skip(1);
        lemma_bytes_concat(rest, b, x);
        assert((a + b).skip(1) =~= rest + b);
        lemma_pow2_adds(8, 8 * rest.len());
        lemma_pow256(1);
        assert(pow256(1) == 256) by {
            reveal_with_fuel(pow256, 2);
        }
        let (p, f) = (pow2(8 * rest.len()), from_le(b));
        assert(256 * (p * f) == (256 * p) * f) by (nonlinear_arith);
        assert(8 * a.len() == 8 + 8 * rest.len());
    }
}

} // verus!
