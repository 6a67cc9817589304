//! Bits of small numbers: reversal, big-endian grouping and recovery.

use vstd::arithmetic::div_mod::{lemma_breakdown, lemma_div_denominator, lemma_fundamental_div_mod_converse};
use vstd::arithmetic::power2::{lemma_pow2_adds, lemma_pow2_pos, lemma_pow2_unfold, pow2};
use vstd::prelude::*;

verus! {

/// Bit `t` of `x`, counted from the lowest.
pub open spec fn bit(x: nat, t: nat) -> nat {
    (x / pow2(t)) % 2
}

/// The lowest `n` bits of `x` in reverse order.
pub open spec fn reverse_bits(x: nat, n: nat) -> nat
    decreases n,
{
    if n == 0 {
        0
    } else {
        2 * reverse_bits(x, (n - 1) as nat) + bit(x, (n - 1) as nat)
    }
}

/// The number whose base-`2^n` digits, highest first, are the first `m` entries of `ds`.
pub open spec fn from_digits(ds: Seq<nat>, n: nat, m: nat) -> nat
    decreases m,
{
    if m == 0 {
        0
    } else {
        from_digits(ds, n, (m - 1) as nat) * pow2(n) + ds[m - 1]
    }
}

/// Base-`2^n` digit of `v` that has `below` digits under it.
pub open spec fn digit(v: nat, n: nat, below: nat) -> nat {
    (v / pow2(below * n)) % pow2(n)
}

/// Reversed bits are no more than there were.
pub proof fn lemma_reverse_bound(x: nat, n: nat)
    ensures
        reverse_bits(x, n) < pow2(n),
    decreases n,
{
    lemma_pow2_pos(n);
    if n > 0 {
        lemma_reverse_bound(x, (n - 1) as nat);
        lemma_pow2_unfold(n);
    }
}

/// `q * d + r` splits back into `q` and `r`.
proof fn lemma_split(q: nat, d: nat, r: nat)
    requires
        r < d,
    ensures
        (q * d + r) / d == q,
        (q * d + r) % d == r,
{
    lemma_fundamental_div_mod_converse((q * d + r) as int, d as int, q as int, r as int);
}

/// Reversal can also peel the lowest bit off first.
proof fn lemma_reverse_low_first(x: nat, n: nat)
    requires
        n > 0,
    ensures
        reverse_bits(x, n) == (x % 2) * pow2((n - 1) as nat) + reverse_bits(x / 2, (n - 1) as nat),
    decreases n,
{
    lemma_pow2_unfold(n);
    assert(pow2(0) == 1) by {
        vstd::arithmetic::power2::lemma2_to64();
    }
    if n == 1 {
        assert(bit(x, 0) == x % 2);
        assert(reverse_bits(x, 1) == 2 * reverse_bits(x, 0) + bit(x, 0));
        assert(reverse_bits(x, 0) == 0);
        assert(reverse_bits(x / 2, 0) == 0);
        assert((x % 2) * pow2(0) == x % 2) by (nonlinear_arith)
            requires
                pow2(0) == 1,
        ;
    } else {
        let m = (n - 1) as nat;
        lemma_reverse_low_first(x, m);
        lemma_pow2_unfold(m);
        lemma_pow2_pos((m - 1) as nat);
        lemma_div_denominator(x as int, 2, pow2((m - 1) as nat) as int);
        assert(bit(x / 2, (m - 1) as nat) == bit(x, m));
        let a = x % 2;
        let p = pow2((m - 1) as nat);
        assert(2 * (a * p) == a * (2 * p)) by (nonlinear_arith);
    }
}

/// Only the lowest `n` bits take part in a reversal of `n` bits.
proof fn lemma_reverse_mod(x: nat, n: nat, k: nat)
    requires
        k <= n,
    ensures
        reverse_bits(x % pow2(n), k) == reverse_bits(x, k),
    decreases k,
{
    lemma_pow2_pos(n);
    if k > 0 {
        let j = (k - 1) as nat;
        lemma_reverse_mod(x, n, j);
        lemma_pow2_pos(j);
        lemma_pow2_pos((n - j) as nat);
        lemma_pow2_adds(j, (n - j) as nat);
        let a = pow2(j);
        let b = pow2((n - j) as nat);
        lemma_breakdown(x as int, a as int, b as int);
        let q = (x / a) % b;
        lemma_split(q, a, x % a);
        assert(a * q == q * a) by (nonlinear_arith);
        assert((x % pow2(n)) / a == q);
        // b is even, so the quotient keeps its parity
        lemma_pow2_unfold((n - j) as nat);
        lemma_breakdown((x / a) as int, 2, pow2((n - j - 1) as nat) as int);
        lemma_pow2_pos((n - j - 1) as nat);
        assert(q % 2 == (x / a) % 2);
        let y = x % pow2(n);
        assert(bit(y, j) == bit(x, j));
    }
}

/// Reversing `n` bits twice gives the `n` bits back.
pub proof fn reverse_twice(x: nat, n: nat)
    ensures
        reverse_bits(reverse_bits(x, n), n) == x % pow2(n),
    decreases n,
{
    if n == 0 {
        assert(pow2(0) == 1) by {
            vstd::arithmetic::power2::lemma2_to64();
        }
    } else {
        let m = (n - 1) as nat;
        let r = reverse_bits(x / 2, m);
        let y = reverse_bits(x, n);
        lemma_reverse_low_first(x, n);
        lemma_reverse_bound(x / 2, m);
        lemma_pow2_pos(m);
        lemma_split(x % 2, pow2(m), r);
        assert(bit(y, m) == x % 2);
        lemma_reverse_mod(y, m, m);
        reverse_twice(x / 2, m);
        lemma_pow2_unfold(n);
        lemma_breakdown(x as int, 2, pow2(m) as int);
    }
}

/// Digits in base two to the power of `n` make a number of as many groups of bits.
pub proof fn lemma_from_digits_bound(ds: Seq<nat>, n: nat, m: nat)
    requires
        m <= ds.len(),
        forall|i: int| 0 <= i < m ==> #[trigger] ds[i] < pow2(n),
    ensures
        from_digits(ds, n, m) < pow2(m * n),
    decreases m,
{
    lemma_pow2_pos(m * n);
    if m > 0 {
        let k = (m - 1) as nat;
        lemma_from_digits_bound(ds, n, k);
        lemma_pow2_adds(k * n, n);
        assert(k * n + n == m * n) by (nonlinear_arith)
            requires
                m == k + 1,
        ;
        let v = from_digits(ds, n, k);
        let p = pow2(k * n);
        let b = pow2(n);
        assert(v * b + ds[m - 1] < p * b) by (nonlinear_arith)
            requires
                v + 1 <= p,
                ds[m - 1] < b,
        ;
    }
}

/// The digits that a number was put together from can be read back out of it.
pub proof fn lemma_digits(ds: Seq<nat>, n: nat, m: nat, j: nat)
    requires
        j < m <= ds.len(),
        forall|i: int| 0 <= i < m ==> #[trigger] ds[i] < pow2(n),
    ensures
        digit(from_digits(ds, n, m), n, (m - 1 - j) as nat) == ds[j as int],
    decreases m,
{
    let k = (m - 1) as nat;
    let low = from_digits(ds, n, k);
    let v = from_digits(ds, n, m);
    let b = pow2(n);
    lemma_pow2_pos(n);
    lemma_split(low, b, ds[k as int]);
    if j == k {
        assert(0 * n == 0) by (nonlinear_arith);
        assert(pow2(0) == 1) by {
            vstd::arithmetic::power2::lemma2_to64();
        }
        assert(v / 1 == v);
    } else {
        lemma_digits(ds, n, k, j);
        let below = (k - 1 - j) as nat;
        lemma_pow2_adds(n, below * n);
        assert(n + below * n == (below + 1) * n) by (nonlinear_arith);
        lemma_pow2_pos(below * n);
        lemma_div_denominator(v as int, b as int, pow2(below * n) as int);
    }
}

/// The lowest bits of a number are those of what is left of it modulo a power of two.
pub proof fn lemma_bit_mod(x: nat, n: nat, j: nat)
    requires
        j < n,
    ensures
        bit(x % pow2(n), j) == bit(x, j),
{
    lemma_pow2_pos(n);
    lemma_pow2_pos(j);
    lemma_pow2_pos((n - j) as nat);
    lemma_pow2_adds(j, (n - j) as nat);
    let a = pow2(j);
    let b = pow2((n - j) as nat);
    lemma_breakdown(x as int, a as int, b as int);
    let q = (x / a) % b;
    lemma_split(q, a, x % a);
    assert(a * q == q * a) by (nonlinear_arith);
    assert((x % pow2(n)) / a == q);
    lemma_pow2_unfold((n - j) as nat);
    lemma_breakdown((x / a) as int, 2, pow2((n - j - 1) as nat) as int);
    lemma_pow2_pos((n - j - 1) as nat);
    assert(q % 2 == (x / a) % 2);
}

/// A bit of a quotient by a power of two is a higher bit of the number.
pub proof fn lemma_bit_shift(x: nat, low: nat, j: nat)
    ensures
        bit(x / pow2(low), j) == bit(x, low + j),
{
    lemma_pow2_pos(low);
    lemma_pow2_pos(j);
    lemma_pow2_adds(low, j);
    lemma_div_denominator(x as int, pow2(low) as int, pow2(j) as int);
}

/// Reversal swaps the ends: bit `i` of the reversed number is the bit as far from the other end,
/// and nothing stands above.
pub proof fn reversal_swaps_the_ends(x: nat, n: nat, i: nat)
    requires
        i < n,
    ensures
        (reverse_bits(x, n) / pow2(i)) % 2 == (x / pow2((n - 1 - i) as nat)) % 2,
        reverse_bits(x, n) < pow2(n),
    decreases n,
{
    lemma_reverse_bound(x, n);
    let m = (n - 1) as nat;
    let r = reverse_bits(x, m);
    let y = reverse_bits(x, n);
    assert(y / 2 == r && y % 2 == bit(x, m)) by {
        assert(y == 2 * r + bit(x, m));
    }
    assert(pow2(0) == 1) by {
        vstd::arithmetic::power2::lemma2_to64();
    }
    if i == 0 {
        assert(y / 1 == y);
    } else {
        reversal_swaps_the_ends(x, m, (i - 1) as nat);
        lemma_pow2_unfold(i);
        lemma_pow2_pos((i - 1) as nat);
        lemma_div_denominator(y as int, 2, pow2((i - 1) as nat) as int);
    }
}

} // verus!
