//! Numbers as little-endian bytes.

use vstd::prelude::*;

verus! {

/// The lowest `n` bytes of `x`, lowest first.
pub open spec fn le_bytes(x: nat, n: nat) -> Seq<u8>
    decreases n,
{
    if n == 0 {
        Seq::empty()
    } else {
        seq![(x % 256) as u8] + le_bytes(x / 256, (n - 1) as nat)
    }
}

/// The number with the given bytes, lowest first.
pub open spec fn from_le(s: Seq<u8>) -> nat
    decreases s.len(),
{
    if s.len() == 0 {
        0
    } else {
        s[0] as nat + 256 * from_le(s.skip(1))
    }
}

/// `256^n`.
pub open spec fn pow256(n: nat) -> nat
    decreases n,
{
    if n == 0 {
        1
    } else {
        256 * pow256((n - 1) as nat)
    }
}

/// There are as many bytes as asked for.
pub proof fn lemma_le_bytes_len(x: nat, n: nat)
    ensures
        le_bytes(x, n).len() == n,
    decreases n,
{
    if n > 0 {
        lemma_le_bytes_len(x / 256, (n - 1) as nat);
    }
}

/// Reading back the bytes of a number gives the number.
pub proof fn lemma_le_round_trip(x: nat, n: nat)
    requires
        x < pow256(n),
    ensures
        from_le(le_bytes(x, n)) == x,
        le_bytes(x, n).len() == n,
    decreases n,
{
    lemma_le_bytes_len(x, n);
    if n > 0 {
        let m = (n - 1) as nat;
        assert(x / 256 < pow256(m)) by (nonlinear_arith)
            requires
                x < 256 * pow256(m),
        ;
        lemma_le_round_trip(x / 256, m);
        lemma_le_bytes_len(x / 256, m);
        assert(le_bytes(x, n).skip(1) =~= le_bytes(x / 256, m));
    }
}

/// Eight bytes hold every 64-bit word.
pub proof fn lemma_pow256_8()
    ensures
        pow256(8) == 0x1_0000_0000_0000_0000,
{
    reveal_with_fuel(pow256, 9);
}

/// A number that its bytes give is below the corresponding power.
pub proof fn lemma_from_le_bound(s: Seq<u8>)
    ensures
        from_le(s) < pow256(s.len()),
    decreases s.len(),
{
    if s.len() > 0 {
        lemma_from_le_bound(s.skip(1));
    }
}

/// Appends the eight bytes of a word.
pub fn write_u64(dst: &mut Vec<u8>, x: u64)
    ensures
        final(dst)@ == old(dst)@ + le_bytes(x as nat, 8),
{
    let ghost before = dst@;
    let mut rest: u64 = x;
    let mut i: usize = 0;
    proof {
        assert(dst@ + le_bytes(x as nat, 8) =~= before + le_bytes(x as nat, 8));
    }
    while i < 8
        invariant
            i <= 8,
            dst@ + le_bytes(rest as nat, (8 - i) as nat) == before + le_bytes(x as nat, 8),
        decreases 8 - i,
    {
        let ghost d0 = dst@;
        dst.push((rest % 256) as u8);
        proof {
            assert(d0 + le_bytes(rest as nat, (8 - i) as nat) =~= dst@ + le_bytes(
                rest as nat / 256,
                (8 - i - 1) as nat,
            ));
        }
        rest = rest / 256;
        i = i + 1;
    }
    proof {
        assert(dst@ + le_bytes(rest as nat, 0) =~= dst@);
    }
}

/// The word whose eight bytes start at `start`.
pub fn read_u64(src: &[u8], start: usize) -> (r: u64)
    requires
        start + 8 <= src@.len(),
    ensures
        r == from_le(src@.subrange(start as int, start + 8)),
{
    let n: usize = src.len();
    let mut acc: u64 = 0;
    let mut i: usize = 8;
    let ghost all = src@.subrange(start as int, start + 8);
    proof {
        assert(all.skip(8).len() == 0);
    }
    while i > 0
        invariant
            i <= 8,
            start + 8 <= n == src@.len(),
            all == src@.subrange(start as int, start + 8),
            acc == from_le(all.skip(i as int)),
        decreases i,
    {
        i = i - 1;
        proof {
            let t = all.skip(i as int);
            assert(t.skip(1) =~= all.skip(i + 1));
            lemma_from_le_bound(t);
            lemma_pow256_8();
            lemma_pow256_mono(t.len(), 8);
        }
        acc = src[start + i] as u64 + 256 * acc;
    }
    proof {
        assert(all.skip(0) =~= all);
    }
    acc
}

proof fn lemma_pow256_mono(a: nat, b: nat)
    requires
        a <= b,
    ensures
        pow256(a) <= pow256(b),
    decreases b,
{
    if a < b {
        lemma_pow256_mono(a, (b - 1) as nat);
    }
}

} // verus!
