//! Packing of residual bucket numbers into bytes, and the lookup tables that unpack them.

use vstd::arithmetic::power2::{lemma2_to64, lemma_pow2_adds, lemma_pow2_pos, lemma_pow2_strictly_increases, lemma_pow2_unfold, pow2};
use vstd::prelude::*;

use crate::bits::{bit, digit, from_digits, reverse_bits};

verus! {

/// How many bucket numbers of `n` bits a byte holds.
pub open spec fn keys_per_byte(n: nat) -> nat {
    8nat / n
}

/// Group `j` of `n` bits of a byte, counted from its high end.
pub open spec fn segment(b: nat, n: nat, j: nat) -> nat {
    (b / pow2((8 - (j + 1) * n) as nat)) % pow2(n)
}

/// The groups of `n` bits of a byte, each reversed, from the high end.
pub open spec fn reversed_segments(b: nat, n: nat) -> Seq<nat> {
    Seq::new(keys_per_byte(n), |j: int| reverse_bits(segment(b, n, j as nat), n))
}

/// The byte that the reversal table holds for `b`: the reversed groups side by side. When groups
/// do not fill a byte, room for one more group is left below them and what overflows is cut off.
pub open spec fn reversed_byte(b: nat, n: nat) -> nat {
    let joined = from_digits(reversed_segments(b, n), n, keys_per_byte(n));
    if 8nat % n == 0 {
        joined % 256
    } else {
        (joined * pow2(n)) % 256
    }
}

/// Bucket number `j` of a byte whose groups read in natural bit order.
pub open spec fn bucket_index(b: nat, n: nat, j: nat) -> nat {
    digit(b, n, (keys_per_byte(n) - 1 - j) as nat)
}

/// The value of bits written highest first.
pub open spec fn bits_value(s: Seq<u8>) -> nat
    decreases s.len(),
{
    if s.len() == 0 {
        0
    } else {
        2 * bits_value(s.drop_last()) + s.last() as nat
    }
}

/// Every entry is `0` or `1`.
pub open spec fn are_bits(s: Seq<u8>) -> bool {
    forall|i: int| 0 <= i < s.len() ==> #[trigger] s[i] <= 1
}

/// Eight bits to a byte, highest first.
pub open spec fn packed_bits(s: Seq<u8>) -> Seq<u8> {
    Seq::new(s.len() / 8, |i: int| bits_value(s.subrange(8 * i, 8 * i + 8)) as u8)
}

/// The bits of each bucket number in turn, lowest bit first, `n` bits to a number.
pub open spec fn bucket_bits(buckets: Seq<u32>, n: nat) -> Seq<u8> {
    Seq::new(
        buckets.len() * n,
        |i: int| bit(buckets[i / (n as int)] as nat, (i % (n as int)) as nat) as u8,
    )
}

/// The bytes that bucket numbers are stored as.
pub open spec fn packed_buckets(buckets: Seq<u32>, n: nat) -> Seq<u8> {
    packed_bits(bucket_bits(buckets, n))
}

/// The bucket numbers that the two tables read out of stored bytes.
pub open spec fn unpacked_buckets(packed: Seq<u8>, n: nat) -> Seq<i64> {
    Seq::new(
        packed.len() * keys_per_byte(n),
        |i: int|
            bucket_index(
                reversed_byte(packed[i / (keys_per_byte(n) as int)] as nat, n),
                n,
                (i % (keys_per_byte(n) as int)) as nat,
            ) as i64,
    )
}

fn power_of_two(e: u64) -> (r: u64)
    requires
        e <= 62,
    ensures
        r == pow2(e as nat),
{
    let mut r: u64 = 1;
    let mut i: u64 = 0;
    proof {
        lemma2_to64();
    }
    while i < e
        invariant
            i <= e <= 62,
            r == pow2(i as nat),
        decreases e - i,
    {
        proof {
            lemma_pow2_unfold((i + 1) as nat);
            lemma2_to64();
            vstd::arithmetic::power2::lemma2_to64_rest();
            if i + 1 < 62 {
                lemma_pow2_strictly_increases((i + 1) as nat, 62);
            }
        }
        r = r * 2;
        i += 1;
    }
    r
}

fn reverse_low_bits(x: u64, n: u64) -> (r: u64)
    requires
        n <= 31,
    ensures
        r == reverse_bits(x as nat, n as nat),
        r < pow2(n as nat),
{
    let mut r: u64 = 0;
    let mut rest: u64 = x;
    let mut i: u64 = 0;
    proof {
        lemma2_to64();
        assert(x as nat / pow2(0) == x);
    }
    while i < n
        invariant
            i <= n <= 31,
            r == reverse_bits(x as nat, i as nat),
            rest == x as nat / pow2(i as nat),
        decreases n - i,
    {
        proof {
            crate::bits::lemma_reverse_bound(x as nat, i as nat);
            lemma2_to64();
            lemma_pow2_strictly_increases(i as nat, 32);
            lemma_pow2_unfold((i + 1) as nat);
            lemma_pow2_pos(i as nat);
            vstd::arithmetic::div_mod::lemma_div_denominator(
                x as int,
                pow2(i as nat) as int,
                2,
            );
        }
        r = r * 2 + rest % 2;
        rest = rest / 2;
        i += 1;
    }
    proof {
        crate::bits::lemma_reverse_bound(x as nat, n as nat);
    }
    r
}

proof fn lemma_segment_room(n: nat, j: nat)
    requires
        1 <= n,
        j < keys_per_byte(n),
    ensures
        (j + 1) * n <= 8,
        n <= 8,
{
    let k = 8nat / n;
    assert(k * n <= 8) by (nonlinear_arith)
        requires
            k == 8nat / n,
            1 <= n,
    ;
    assert((j + 1) * n <= k * n) by (nonlinear_arith)
        requires
            j + 1 <= k,
    ;
    assert(n <= (j + 1) * n) by (nonlinear_arith);
}

proof fn lemma_joined_bound(b: nat, n: nat, m: nat)
    requires
        1 <= n <= 31,
        m <= keys_per_byte(n),
    ensures
        from_digits(reversed_segments(b, n), n, m) < pow2(m * n),
        m * n <= 8,
        pow2(m * n) <= 256,
{
    let ds = reversed_segments(b, n);
    assert forall|i: int| 0 <= i < m implies #[trigger] ds[i] < pow2(n) by {
        crate::bits::lemma_reverse_bound(segment(b, n, i as nat), n);
    }
    crate::bits::lemma_from_digits_bound(ds, n, m);
    if m > 0 {
        lemma_segment_room(n, (m - 1) as nat);
    } else {
        assert(0 * n == 0) by (nonlinear_arith);
    }
    lemma2_to64();
    if m * n < 8 {
        lemma_pow2_strictly_increases(m * n, 8);
    }
}

/// The entry of the reversal table for one byte.
fn reversed_byte_value(b: u64, n: u64) -> (r: u8)
    requires
        b < 256,
        1 <= n <= 31,
    ensures
        r == reversed_byte(b as nat, n as nat),
{
    let k: u64 = 8 / n;
    let base: u64 = power_of_two(n);
    let ghost ds = reversed_segments(b as nat, n as nat);
    let mut out: u64 = 0;
    let mut j: u64 = 0;
    while j < k
        invariant
            b < 256,
            1 <= n <= 31,
            k == 8u64 / n,
            k == keys_per_byte(n as nat),
            j <= k,
            base == pow2(n as nat),
            ds == reversed_segments(b as nat, n as nat),
            out == from_digits(ds, n as nat, j as nat),
        decreases k - j,
    {
        proof {
            lemma_segment_room(n as nat, j as nat);
            lemma_joined_bound(b as nat, n as nat, j as nat);
            lemma_joined_bound(b as nat, n as nat, (j + 1) as nat);
        }
        let below: u64 = 8 - (j + 1) * n;
        let d: u64 = power_of_two(below);
        proof {
            lemma_pow2_pos(below as nat);
            lemma_pow2_pos(n as nat);
        }
        let seg: u64 = (b / d) % base;
        assert(seg == segment(b as nat, n as nat, j as nat));
        let rev: u64 = reverse_low_bits(seg, n);
        assert(ds[j as int] == rev);
        assert(out * base + rev == from_digits(ds, n as nat, (j + 1) as nat));
        out = out * base + rev;
        j += 1;
    }
    proof {
        lemma_joined_bound(b as nat, n as nat, k as nat);
    }
    if 8 % n == 0 {
        (out % 256) as u8
    } else {
        proof {
            lemma2_to64();
            lemma_pow2_strictly_increases(n as nat, 32);
            assert(out * base <= 256 * 0x1_0000_0000) by (nonlinear_arith)
                requires
                    out <= 256,
                    base <= 0x1_0000_0000,
            ;
        }
        ((out * base) % 256) as u8
    }
}

/// The reversal table: for each byte, the byte with every group of `n` bits reversed.
pub fn reversal_table(n: i64) -> (r: Vec<u8>)
    requires
        1 <= n <= 31,
    ensures
        r@.len() == 256,
        forall|b: int| 0 <= b < 256 ==> #[trigger] r@[b] == reversed_byte(b as nat, n as nat),
{
    let mut out: Vec<u8> = Vec::new();
    let mut b: u64 = 0;
    while b < 256
        invariant
            b <= 256,
            1 <= n <= 31,
            out@.len() == b,
            forall|i: int| 0 <= i < b ==> #[trigger] out@[i] == reversed_byte(i as nat, n as nat),
        decreases 256 - b,
    {
        out.push(reversed_byte_value(b, n as u64));
        b += 1;
    }
    out
}

/// The unpacking table: for each byte, its bucket numbers from the high end, row after row.
pub fn bucket_table(n: i64) -> (r: Vec<i64>)
    requires
        1 <= n <= 30,
    ensures
        r@.len() == 256 * keys_per_byte(n as nat),
        forall|b: int, j: int|
            0 <= b < 256 && 0 <= j < keys_per_byte(n as nat)
                ==> #[trigger] r@[b * keys_per_byte(n as nat) + j] == bucket_index(
                b as nat,
                n as nat,
                j as nat,
            ),
{
    let k: u64 = 8 / (n as u64);
    let base: u64 = power_of_two(n as u64);
    let mut out: Vec<i64> = Vec::new();
    let mut b: u64 = 0;
    while b < 256
        invariant
            b <= 256,
            1 <= n <= 30,
            base == pow2(n as nat),
            k == keys_per_byte(n as nat),
            k <= 8,
            out@.len() == b * k,
            forall|x: int, j: int|
                0 <= x < b && 0 <= j < k ==> #[trigger] out@[x * k + j] == bucket_index(
                    x as nat,
                    n as nat,
                    j as nat,
                ),
        decreases 256 - b,
    {
        let mut j: u64 = 0;
        while j < k
            invariant
                b < 256,
                j <= k,
                1 <= n <= 30,
                base == pow2(n as nat),
                k == keys_per_byte(n as nat),
                k <= 8,
                out@.len() == b * k + j,
                forall|x: int, i: int|
                    (0 <= x < b && 0 <= i < k) || (x == b && 0 <= i < j) ==> #[trigger] out@[x * k
                        + i] == bucket_index(x as nat, n as nat, i as nat),
            decreases k - j,
        {
            proof {
                lemma_segment_room(n as nat, (k - 1) as nat);
                lemma_segment_room(n as nat, (k - 1 - j) as nat);
                let i = k - 1 - j;
                assert(i * n <= (i + 1) * n) by (nonlinear_arith)
                    requires
                        n >= 1,
                ;
                assert(i * n <= 8);
                lemma_pow2_pos((i * n) as nat);
                lemma_pow2_pos(n as nat);
            }
            let d: u64 = power_of_two((k - 1 - j) * (n as u64));
            let v: u64 = (b / d) % base;
            proof {
                lemma2_to64();
                lemma_pow2_strictly_increases(n as nat, 32);
            }
            let ghost before = out@;
            out.push(v as i64);
            proof {
                assert forall|x: int, i: int|
                    (0 <= x < b && 0 <= i < k) || (x == b && 0 <= i < j + 1) implies #[trigger] out@[x
                    * k + i] == bucket_index(x as nat, n as nat, i as nat) by {
                    if x == b && i == j {
                    } else {
                        assert(x * k + i < b * k + j) by (nonlinear_arith)
                            requires
                                (0 <= x < b && 0 <= i < k) || (x == b && 0 <= i < j),
                                0 <= j,
                        ;
                        assert(0 <= x * k + i) by (nonlinear_arith)
                            requires
                                0 <= x,
                                0 <= i,
                                0 <= k,
                        ;
                        assert(out@[x * k + i] == before[x * k + i]);
                    }
                }
            }
            j += 1;
        }
        assert((b + 1) * k == b * k + k) by (nonlinear_arith);
        b += 1;
    }
    out
}

proof fn lemma_bits_bound(s: Seq<u8>)
    requires
        are_bits(s),
    ensures
        bits_value(s) < pow2(s.len()),
    decreases s.len(),
{
    lemma_pow2_pos(s.len());
    if s.len() > 0 {
        assert(are_bits(s.drop_last())) by {
            assert forall|i: int| 0 <= i < s.drop_last().len() implies #[trigger] s.drop_last()[i]
                <= 1 by {
                assert(s.drop_last()[i] == s[i]);
            }
        }
        lemma_bits_bound(s.drop_last());
        lemma_pow2_unfold(s.len());
        assert(s[s.len() - 1] <= 1);
    }
}

/// Packs bits (`0` or `1`) into bytes, eight to a byte, the first bit the highest.
pub fn packbits(bits: &Vec<u8>) -> (r: Vec<u8>)
    requires
        bits@.len() % 8 == 0,
        are_bits(bits@),
    ensures
        r@ == packed_bits(bits@),
        r@.len() == bits@.len() / 8,
        forall|i: int|
            0 <= i < r@.len() ==> #[trigger] r@[i] == 128 * bits@[8 * i] + 64 * bits@[8 * i + 1] + 32
                * bits@[8 * i + 2] + 16 * bits@[8 * i + 3] + 8 * bits@[8 * i + 4] + 4 * bits@[8 * i
                + 5] + 2 * bits@[8 * i + 6] + bits@[8 * i + 7],
{
    let mut out: Vec<u8> = Vec::new();
    let mut at: usize = 0;
    while at < bits.len()
        invariant
            at <= bits@.len(),
            at % 8 == 0,
            bits@.len() % 8 == 0,
            are_bits(bits@),
            out@.len() == at / 8,
            forall|i: int|
                0 <= i < at / 8 ==> #[trigger] out@[i] == bits_value(
                    bits@.subrange(8 * i, 8 * i + 8),
                ) as u8,
        decreases bits@.len() - at,
    {
        let mut byte: u8 = 0;
        let mut t: usize = 0;
        assert(bits@.subrange(at as int, at as int) == Seq::<u8>::empty());
        while t < 8
            invariant
                t <= 8,
                at + 8 <= bits.len(),
                are_bits(bits@),
                byte == bits_value(bits@.subrange(at as int, at + t)),
            decreases 8 - t,
        {
            let ghost next = bits@.subrange(at as int, at + t + 1);
            proof {
                assert(next.drop_last() == bits@.subrange(at as int, at + t));
                assert(next.last() == bits@[at + t]);
                assert(are_bits(next)) by {
                    assert forall|i: int| 0 <= i < next.len() implies #[trigger] next[i] <= 1 by {
                        assert(next[i] == bits@[at + i]);
                    }
                }
                lemma_bits_bound(next);
                lemma2_to64();
                if t < 7 {
                    lemma_pow2_strictly_increases((t + 1) as nat, 8);
                }
            }
            byte = byte * 2 + bits[at + t];
            t += 1;
        }
        out.push(byte);
        assert(8 * (at / 8) == at);
        at += 8;
    }
    assert(out@ =~= packed_bits(bits@));
    proof {
        assert forall|i: int| 0 <= i < out@.len() implies #[trigger] out@[i] == 128 * bits@[8 * i]
            + 64 * bits@[8 * i + 1] + 32 * bits@[8 * i + 2] + 16 * bits@[8 * i + 3] + 8 * bits@[8 * i
            + 4] + 4 * bits@[8 * i + 5] + 2 * bits@[8 * i + 6] + bits@[8 * i + 7] by {
            bytes_add_up_their_bits(bits@, i);
        }
    }
    out
}

/// The bits of every bucket number, lowest first.
fn expand_bits(buckets: &Vec<u32>, n: usize) -> (r: Vec<u8>)
    requires
        1 <= n <= 31,
        buckets@.len() * n <= usize::MAX,
    ensures
        r@ == bucket_bits(buckets@, n as nat),
        are_bits(r@),
{
    let mut out: Vec<u8> = Vec::new();
    let mut i: usize = 0;
    while i < buckets.len()
        invariant
            i <= buckets@.len(),
            1 <= n <= 31,
            buckets@.len() * n <= usize::MAX,
            out@.len() == i * n,
            are_bits(out@),
            forall|x: int|
                0 <= x < i * n ==> #[trigger] out@[x] == bit(
                    buckets@[x / (n as int)] as nat,
                    (x % (n as int)) as nat,
                ) as u8,
        decreases buckets@.len() - i,
    {
        let v: u32 = buckets[i];
        let mut rest: u32 = v;
        let mut t: usize = 0;
        proof {
            lemma2_to64();
            assert(v as nat / pow2(0) == v);
        }
        while t < n
            invariant
                t <= n,
                i < buckets@.len(),
                1 <= n <= 31,
                v == buckets@[i as int],
                rest == v as nat / pow2(t as nat),
                out@.len() == i * n + t,
                are_bits(out@),
                forall|x: int|
                    0 <= x < i * n + t ==> #[trigger] out@[x] == bit(
                        buckets@[x / (n as int)] as nat,
                        (x % (n as int)) as nat,
                    ) as u8,
            decreases n - t,
        {
            let ghost before = out@;
            out.push((rest % 2) as u8);
            proof {
                lemma_pow2_unfold((t + 1) as nat);
                lemma_pow2_pos(t as nat);
                vstd::arithmetic::div_mod::lemma_div_denominator(
                    v as int,
                    pow2(t as nat) as int,
                    2,
                );
                let x = i * n + t;
                vstd::arithmetic::div_mod::lemma_fundamental_div_mod_converse(
                    x,
                    n as int,
                    i as int,
                    t as int,
                );
                assert(forall|y: int| 0 <= y < x ==> out@[y] == before[y]);
            }
            rest = rest / 2;
            t += 1;
        }
        assert((i + 1) * n == i * n + n) by (nonlinear_arith);
        i += 1;
    }
    assert(out@ =~= bucket_bits(buckets@, n as nat));
    out
}

/// Stores bucket numbers as bytes: the lowest `nbits` bits of each, lowest bit first, packed eight
/// to a byte.
pub fn pack_buckets(buckets: &Vec<u32>, nbits: i64) -> (r: Vec<u8>)
    requires
        1 <= nbits <= 31,
        buckets@.len() * nbits <= usize::MAX,
        (buckets@.len() * nbits) % 8 == 0,
    ensures
        r@ == packed_buckets(buckets@, nbits as nat),
        8 * r@.len() == buckets@.len() * nbits,
        forall|i: int, t: int|
            0 <= i < r@.len() && 0 <= t < 8 ==> (r@[i] as nat / #[trigger] pow2((7 - t) as nat)) % 2
                == (buckets@[(8 * i + t) / (nbits as int)] as nat / pow2(
                ((#[trigger] (8 * i + t)) % (nbits as int)) as nat,
            )) % 2,
{
    proof {
        assert forall|i: int, t: int|
            0 <= i < (buckets@.len() * nbits) / 8 && 0 <= t < 8 implies (packed_buckets(
            buckets@,
            nbits as nat,
        )[i] as nat / #[trigger] pow2((7 - t) as nat)) % 2 == (buckets@[(8 * i + t) / (
        nbits as int)] as nat / pow2(((#[trigger] (8 * i + t)) % (nbits as int)) as nat)) % 2 by {
            stored_bytes_hold_the_buckets(buckets@, nbits as nat, i, t);
        }
    }
    let bits = expand_bits(buckets, nbits as usize);
    packbits(&bits)
}

/// Groups of `n` bits fill a byte exactly.
pub open spec fn fills_byte(n: nat) -> bool {
    1 <= n <= 8 && 8nat % n == 0
}

/// The widths of groups that fill a byte.
pub proof fn lemma_fill(n: nat)
    requires
        fills_byte(n),
    ensures
        n == 1 || n == 2 || n == 4 || n == 8,
        keys_per_byte(n) * n == 8,
        keys_per_byte(n) >= 1,
{
    assert(8nat % 3nat == 2 && 8nat % 5nat == 3 && 8nat % 6nat == 2 && 8nat % 7nat == 1);
    assert(8nat / 1nat == 8 && 8nat / 2nat == 4 && 8nat / 4nat == 2 && 8nat / 8nat == 1);
}

/// The reversed bucket numbers that make up stored byte `i`.
spec fn byte_digits(buckets: Seq<u32>, n: nat, i: int) -> Seq<nat> {
    Seq::new(
        keys_per_byte(n),
        |j: int| reverse_bits(buckets[i * keys_per_byte(n) + j] as nat, n),
    )
}

/// Bits of one bucket number appended to a run of bits.
proof fn lemma_append_bucket(buckets: Seq<u32>, n: nat, from: int, g: int, t: nat)
    requires
        n >= 1,
        0 <= g < buckets.len(),
        0 <= from <= g * n,
        t <= n,
    ensures
        g * n + t <= buckets.len() * n,
        bits_value(bucket_bits(buckets, n).subrange(from, g * n + t)) == bits_value(
            bucket_bits(buckets, n).subrange(from, g * n),
        ) * pow2(t) + reverse_bits(buckets[g] as nat, t),
    decreases t,
{
    let s = bucket_bits(buckets, n);
    assert(g * n + n <= buckets.len() * n) by (nonlinear_arith)
        requires
            g + 1 <= buckets.len(),
    ;
    if t == 0 {
        lemma2_to64();
        assert(g * n + t == g * n);
        let v = bits_value(s.subrange(from, g * n));
        assert(v * 1 == v);
    } else {
        let u = (t - 1) as nat;
        lemma_append_bucket(buckets, n, from, g, u);
        let long = s.subrange(from, g * n + t);
        let x = g * n + u;
        assert(long.drop_last() == s.subrange(from, x));
        assert(long.last() == s[x]);
        vstd::arithmetic::div_mod::lemma_fundamental_div_mod_converse(x, n as int, g, u as int);
        assert(s[x] == bit(buckets[g] as nat, u) as u8);
        lemma_pow2_unfold(t);
        let v = bits_value(s.subrange(from, g * n));
        let p = pow2(u);
        assert(2 * (v * p) == v * (2 * p)) by (nonlinear_arith);
    }
}

/// The first `m` bucket numbers of stored byte `i`.
proof fn lemma_byte_prefix(buckets: Seq<u32>, n: nat, i: int, m: nat)
    requires
        fills_byte(n),
        m <= keys_per_byte(n),
        0 <= i,
        (i + 1) * keys_per_byte(n) <= buckets.len(),
    ensures
        8 * i + m * n <= buckets.len() * n,
        bits_value(bucket_bits(buckets, n).subrange(8 * i, 8 * i + m * n)) == from_digits(
            byte_digits(buckets, n, i),
            n,
            m,
        ),
    decreases m,
{
    lemma_fill(n);
    let k = keys_per_byte(n);
    let s = bucket_bits(buckets, n);
    let ds = byte_digits(buckets, n, i);
    assert((i + 1) * k == i * k + k) by (nonlinear_arith);
    assert((i * k + m) * n == 8 * i + m * n) by (nonlinear_arith)
        requires
            k * n == 8,
    ;
    assert((i * k + m) * n <= buckets.len() * n) by (nonlinear_arith)
        requires
            i * k + m <= buckets.len(),
    ;
    if m == 0 {
        assert(0 * n == 0) by (nonlinear_arith);
        assert(s.subrange(8 * i, 8 * i) == Seq::<u8>::empty());
    } else {
        let l = (m - 1) as nat;
        lemma_byte_prefix(buckets, n, i, l);
        let g = i * k + l;
        assert(g * n == 8 * i + l * n) by (nonlinear_arith)
            requires
                k * n == 8,
                g == i * k + l,
        ;
        assert(l * n >= 0) by (nonlinear_arith);
        assert(m * n == l * n + n) by (nonlinear_arith)
            requires
                m == l + 1,
        ;
        assert(0 <= g) by (nonlinear_arith)
            requires
                g == i * k + l,
                0 <= i,
                0 <= k,
                0 <= l,
        ;
        lemma_append_bucket(buckets, n, 8 * i, g, n);
        assert(ds[l as int] == reverse_bits(buckets[g] as nat, n));
    }
}

/// Both tables applied to one stored byte give its bucket numbers.
proof fn lemma_byte_round_trip(buckets: Seq<u32>, n: nat, i: int, j: int)
    requires
        fills_byte(n),
        0 <= i,
        0 <= j < keys_per_byte(n),
        (i + 1) * keys_per_byte(n) <= buckets.len(),
        forall|x: int| 0 <= x < buckets.len() ==> #[trigger] buckets[x] < pow2(n),
    ensures
        i < packed_buckets(buckets, n).len(),
        bucket_index(reversed_byte(packed_buckets(buckets, n)[i] as nat, n), n, j as nat)
            == buckets[i * keys_per_byte(n) + j],
{
    lemma_fill(n);
    let k = keys_per_byte(n);
    let ds = byte_digits(buckets, n, i);
    let ids = Seq::<nat>::new(k, |x: int| buckets[i * k + x] as nat);
    assert((i + 1) * k == i * k + k) by (nonlinear_arith);
    assert(0 <= i * k) by (nonlinear_arith)
        requires
            0 <= i,
            0 <= k,
    ;
    lemma_byte_prefix(buckets, n, i, k);
    assert(i < (buckets.len() * n) / 8) by {
        assert(8 * i + 8 <= buckets.len() * n);
    }
    let v = from_digits(ds, n, k);
    assert forall|x: int| 0 <= x < k implies #[trigger] ds[x] < pow2(n) by {
        crate::bits::lemma_reverse_bound(buckets[i * k + x] as nat, n);
    }
    crate::bits::lemma_from_digits_bound(ds, n, k);
    lemma2_to64();
    assert(packed_buckets(buckets, n)[i] as nat == v);
    assert forall|x: int| 0 <= x < k implies #[trigger] ids[x] < pow2(n) by {
        assert(buckets[i * k + x] < pow2(n));
    }
    assert(reversed_segments(v, n) =~= ids) by {
        assert forall|x: int| 0 <= x < k implies #[trigger] reversed_segments(v, n)[x] == ids[x] by {
            crate::bits::lemma_digits(ds, n, k, x as nat);
            assert(8 - (x + 1) * n == (k - 1 - x) * n) by (nonlinear_arith)
                requires
                    k * n == 8,
            ;
            assert(segment(v, n, x as nat) == ds[x]);
            crate::bits::reverse_twice(ids[x], n);
            vstd::arithmetic::div_mod::lemma_small_mod(ids[x], pow2(n));
        }
    }
    let w = from_digits(ids, n, k);
    crate::bits::lemma_from_digits_bound(ids, n, k);
    assert(reversed_byte(v, n) == w);
    crate::bits::lemma_digits(ids, n, k, j as nat);
    assert(ids[j] == buckets[i * k + j]);
}

/// What is unpacked is what was packed: with `n` bits to a bucket number, `n` dividing eight, the
/// two lookup tables read back from the stored bytes exactly the bucket numbers that were stored.
pub proof fn unpack_reads_what_pack_wrote(buckets: Seq<u32>, n: nat)
    requires
        fills_byte(n),
        buckets.len() % keys_per_byte(n) == 0,
        forall|x: int| 0 <= x < buckets.len() ==> #[trigger] buckets[x] < pow2(n),
    ensures
        unpacked_buckets(packed_buckets(buckets, n), n) == buckets.map_values(|b: u32| b as i64),
{
    lemma_fill(n);
    let k = keys_per_byte(n);
    let q = buckets.len() / k;
    let packed = packed_buckets(buckets, n);
    vstd::arithmetic::div_mod::lemma_fundamental_div_mod(buckets.len() as int, k as int);
    assert(buckets.len() == q * k) by (nonlinear_arith)
        requires
            buckets.len() == k * q,
    ;
    assert(buckets.len() * n == 8 * q) by (nonlinear_arith)
        requires
            buckets.len() == q * k,
            k * n == 8,
    ;
    assert(packed.len() == q);
    let out = unpacked_buckets(packed, n);
    let want = buckets.map_values(|b: u32| b as i64);
    assert forall|x: int| 0 <= x < out.len() implies #[trigger] out[x] == want[x] by {
        let i = x / (k as int);
        let j = x % (k as int);
        vstd::arithmetic::div_mod::lemma_fundamental_div_mod(x, k as int);
        assert(x == i * k + j) by (nonlinear_arith)
            requires
                x == k * i + j,
        ;
        assert(0 <= i < q) by (nonlinear_arith)
            requires
                0 <= x < q * k,
                x == i * k + j,
                0 <= j < k,
        ;
        assert((i + 1) * k <= q * k) by (nonlinear_arith)
            requires
                i + 1 <= q,
                0 <= k,
        ;
        lemma_byte_round_trip(buckets, n, i, j);
    }
    assert(out =~= want);
}

/// Reversing the groups of a byte twice gives the byte back.
pub proof fn reversal_table_is_involutive(b: nat, n: nat)
    requires
        fills_byte(n),
        b < 256,
    ensures
        reversed_byte(b, n) < 256,
        reversed_byte(reversed_byte(b, n), n) == b,
{
    lemma_fill(n);
    let k = keys_per_byte(n);
    lemma2_to64();
    let ds = reversed_segments(b, n);
    let plain = Seq::<nat>::new(k, |x: int| segment(b, n, x as nat));
    assert forall|x: int| 0 <= x < k implies #[trigger] ds[x] < pow2(n) by {
        crate::bits::lemma_reverse_bound(segment(b, n, x as nat), n);
    }
    crate::bits::lemma_from_digits_bound(ds, n, k);
    let v = from_digits(ds, n, k);
    lemma_pow2_pos(n);
    assert(reversed_byte(b, n) == v);
    assert(reversed_segments(v, n) =~= plain) by {
        assert forall|x: int| 0 <= x < k implies #[trigger] reversed_segments(v, n)[x]
            == plain[x] by {
            crate::bits::lemma_digits(ds, n, k, x as nat);
            assert(8 - (x + 1) * n == (k - 1 - x) * n) by (nonlinear_arith)
                requires
                    k * n == 8,
            ;
            crate::bits::reverse_twice(plain[x], n);
            vstd::arithmetic::div_mod::lemma_small_mod(plain[x], pow2(n));
        }
    }
    lemma_segments_join(b, n, k);
    assert((k - k) * n == 0) by (nonlinear_arith);
    assert(b / 1 == b);
}

/// The first `m` groups of a byte, side by side, are the byte without its lower groups.
proof fn lemma_segments_join(b: nat, n: nat, m: nat)
    requires
        fills_byte(n),
        b < 256,
        m <= keys_per_byte(n),
    ensures
        from_digits(Seq::new(keys_per_byte(n), |x: int| segment(b, n, x as nat)), n, m) == b / pow2(
            ((keys_per_byte(n) - m) * n) as nat,
        ),
    decreases m,
{
    lemma_fill(n);
    let k = keys_per_byte(n);
    lemma2_to64();
    if m == 0 {
        assert((k - m) * n == 8) by (nonlinear_arith)
            requires
                k * n == 8,
                m == 0,
        ;
        assert(b / 256 == 0);
    } else {
        let l = (m - 1) as nat;
        lemma_segments_join(b, n, l);
        let low = ((k - m) * n) as nat;
        assert((k - m) * n >= 0) by (nonlinear_arith)
            requires
                k - m >= 0,
        ;
        assert((k - l) * n == low + n) by (nonlinear_arith)
            requires
                low == (k - m) * n,
                m == l + 1,
        ;
        assert(8 - m * n == (k - m) * n) by (nonlinear_arith)
            requires
                k * n == 8,
        ;
        lemma_pow2_adds(low, n);
        lemma_pow2_pos(low);
        lemma_pow2_pos(n);
        let q = b / pow2(low);
        vstd::arithmetic::div_mod::lemma_div_denominator(b as int, pow2(low) as int, pow2(n) as int);
        vstd::arithmetic::div_mod::lemma_fundamental_div_mod(q as int, pow2(n) as int);
        let a = q / pow2(n);
        assert(a * pow2(n) == pow2(n) * a) by (nonlinear_arith);
    }
}

/// Bits that fill bytes pack apart from those behind them.
proof fn lemma_packed_bits_join(a: Seq<u8>, b: Seq<u8>)
    requires
        a.len() % 8 == 0,
    ensures
        packed_bits(a + b) == packed_bits(a) + packed_bits(b),
{
    let q = a.len() / 8;
    let joined = packed_bits(a + b);
    let parts = packed_bits(a) + packed_bits(b);
    assert(joined.len() == parts.len());
    assert forall|i: int| 0 <= i < joined.len() implies #[trigger] joined[i] == parts[i] by {
        let here = (a + b).subrange(8 * i, 8 * i + 8);
        if i < q {
            assert(here =~= a.subrange(8 * i, 8 * i + 8));
        } else {
            assert(here =~= b.subrange(8 * (i - q), 8 * (i - q) + 8));
        }
    }
    assert(joined =~= parts);
}

/// Bucket numbers that fill bytes are stored apart from those behind them, so that storing lists
/// of them one by one stores all of them.
pub proof fn packing_joins_up(a: Seq<u32>, b: Seq<u32>, n: nat)
    requires
        0 < n,
        (a.len() * n) % 8 == 0,
    ensures
        packed_buckets(a + b, n) == packed_buckets(a, n) + packed_buckets(b, n),
{
    let joined = bucket_bits(a + b, n);
    let first = bucket_bits(a, n);
    let parts = first + bucket_bits(b, n);
    assert((a + b).len() * n == a.len() * n + b.len() * n) by (nonlinear_arith)
        requires
            (a + b).len() == a.len() + b.len(),
    ;
    assert forall|i: int| 0 <= i < joined.len() implies #[trigger] joined[i] == parts[i] by {
        let la = a.len() as int;
        let k = n as int;
        vstd::arithmetic::div_mod::lemma_fundamental_div_mod(i, k);
        let q = i / k;
        let m = i % k;
        if i < first.len() {
            assert(0 <= q < la) by (nonlinear_arith)
                requires
                    0 <= i < la * k,
                    i == k * q + m,
                    0 <= m < k,
            ;
            assert((a + b)[q] == a[q]);
        } else {
            let rest = i - la * k;
            assert(rest == k * (q - la) + m) by (nonlinear_arith)
                requires
                    rest == i - la * k,
                    i == k * q + m,
            ;
            vstd::arithmetic::div_mod::lemma_fundamental_div_mod_converse(rest, k, q - la, m);
            assert(q - la >= 0) by (nonlinear_arith)
                requires
                    rest >= 0,
                    rest == k * (q - la) + m,
                    0 <= m < k,
            ;
            assert(q - la < b.len()) by (nonlinear_arith)
                requires
                    rest < b.len() * k,
                    rest == k * (q - la) + m,
                    0 <= m < k,
            ;
            assert((a + b)[q] == b[q - la]);
            assert(parts[i] == bucket_bits(b, n)[rest]);
        }
    }
    assert(joined =~= parts);
    lemma_packed_bits_join(first, bucket_bits(b, n));
}

/// Unpacking goes byte by byte: some of the bytes give the bucket numbers that stand there in what
/// all of them give.
pub proof fn unpacking_goes_byte_by_byte(packed: Seq<u8>, n: nat, from: int, to: int)
    requires
        fills_byte(n),
        0 <= from <= to <= packed.len(),
    ensures
        0 <= from * keys_per_byte(n) <= to * keys_per_byte(n) <= packed.len() * keys_per_byte(n),
        unpacked_buckets(packed, n).subrange(from * keys_per_byte(n), to * keys_per_byte(n))
            == unpacked_buckets(packed.subrange(from, to), n),
{
    lemma_fill(n);
    let k = keys_per_byte(n) as int;
    let all = unpacked_buckets(packed, n);
    let some = unpacked_buckets(packed.subrange(from, to), n);
    assert(0 <= from * k <= to * k <= packed.len() * k && to * k - from * k == (to - from) * k)
        by (nonlinear_arith)
        requires
            0 <= from <= to <= packed.len(),
            k >= 1,
    ;
    assert forall|y: int| 0 <= y < some.len() implies #[trigger] all.subrange(
        from * k,
        to * k,
    )[y] == some[y] by {
        let x = from * k + y;
        vstd::arithmetic::div_mod::lemma_fundamental_div_mod(y, k);
        assert(x == (from + y / k) * k + y % k) by (nonlinear_arith)
            requires
                x == from * k + y,
                y == k * (y / k) + y % k,
        ;
        vstd::arithmetic::div_mod::lemma_fundamental_div_mod_converse(x, k, from + y / k, y % k);
        assert(0 <= y / k < to - from) by (nonlinear_arith)
            requires
                0 <= y < (to - from) * k,
                y == k * (y / k) + y % k,
                0 <= y % k < k,
        ;
    }
    assert(all.subrange(from * k, to * k) =~= some);
}

/// The bucket numbers of one document can be read from its own bytes: out of everything that is
/// stored, the bytes behind those of what comes before give back what was stored there.
pub proof fn slice_reads_back(before: Seq<u32>, here: Seq<u32>, behind: Seq<u32>, n: nat)
    requires
        fills_byte(n),
        (before.len() * n) % 8 == 0,
        (here.len() * n) % 8 == 0,
        forall|x: int| 0 <= x < here.len() ==> #[trigger] here[x] < pow2(n),
    ensures
        ({
            let stored = packed_buckets(before + here + behind, n);
            let from = packed_buckets(before, n).len() as int;
            let to = from + packed_buckets(here, n).len();
            unpacked_buckets(stored.subrange(from, to), n) == here.map_values(|b: u32| b as i64)
        }),
{
    lemma_fill(n);
    let k = keys_per_byte(n);
    packing_joins_up(before, here + behind, n);
    packing_joins_up(here, behind, n);
    assert(before + here + behind =~= before + (here + behind));
    let stored = packed_buckets(before + here + behind, n);
    let from = packed_buckets(before, n).len() as int;
    let to = from + packed_buckets(here, n).len();
    assert(stored.subrange(from, to) =~= packed_buckets(here, n));
    assert(here.len() % k == 0) by {
        let q = (here.len() * n) / 8;
        assert(here.len() == q * k) by (nonlinear_arith)
            requires
                here.len() * n == 8 * q,
                k * n == 8,
                n > 0,
        ;
        assert((q * k) % k == 0) by {
            vstd::arithmetic::div_mod::lemma_mod_multiples_basic(q as int, k as int);
        }
    }
    unpack_reads_what_pack_wrote(here, n);
}

proof fn lemma_eight(s: Seq<u8>)
    requires
        s.len() == 8,
    ensures
        bits_value(s) == 128 * s[0] + 64 * s[1] + 32 * s[2] + 16 * s[3] + 8 * s[4] + 4 * s[5] + 2
            * s[6] + s[7],
{
    let s7 = s.drop_last();
    let s6 = s7.drop_last();
    let s5 = s6.drop_last();
    let s4 = s5.drop_last();
    let s3 = s4.drop_last();
    let s2 = s3.drop_last();
    let s1 = s2.drop_last();
    let s0 = s1.drop_last();
    assert(bits_value(s0) == 0);
    assert(bits_value(s1) == s[0]);
    assert(bits_value(s2) == 2 * bits_value(s1) + s[1]);
    assert(bits_value(s3) == 2 * bits_value(s2) + s[2]);
    assert(bits_value(s4) == 2 * bits_value(s3) + s[3]);
    assert(bits_value(s5) == 2 * bits_value(s4) + s[4]);
    assert(bits_value(s6) == 2 * bits_value(s5) + s[5]);
    assert(bits_value(s7) == 2 * bits_value(s6) + s[6]);
    assert(bits_value(s) == 2 * bits_value(s7) + s[7]);
}

/// Eight bits make a byte, the first one worth 128 and each of the others half of the one before
/// it.
pub proof fn bytes_add_up_their_bits(s: Seq<u8>, i: int)
    requires
        are_bits(s),
        0 <= i < s.len() / 8,
    ensures
        packed_bits(s).len() == s.len() / 8,
        packed_bits(s)[i] == 128 * s[8 * i] + 64 * s[8 * i + 1] + 32 * s[8 * i + 2] + 16 * s[8 * i
            + 3] + 8 * s[8 * i + 4] + 4 * s[8 * i + 5] + 2 * s[8 * i + 6] + s[8 * i + 7],
{
    let here = s.subrange(8 * i, 8 * i + 8);
    lemma_eight(here);
    assert(s[8 * i] <= 1 && s[8 * i + 1] <= 1 && s[8 * i + 2] <= 1 && s[8 * i + 3] <= 1);
    assert(s[8 * i + 4] <= 1 && s[8 * i + 5] <= 1 && s[8 * i + 6] <= 1 && s[8 * i + 7] <= 1);
}

/// The bits that bucket numbers are stored as: `n` for each number, the lowest first.
pub proof fn buckets_give_their_lowest_bits(buckets: Seq<u32>, n: nat, g: int, t: int)
    requires
        0 <= g < buckets.len(),
        0 <= t < n,
    ensures
        bucket_bits(buckets, n).len() == buckets.len() * n,
        g * n + t < buckets.len() * n,
        bucket_bits(buckets, n)[g * n + t] == (buckets[g] as nat / pow2(t as nat)) % 2,
        are_bits(bucket_bits(buckets, n)),
{
    let x = g * n + t;
    assert(0 <= x < buckets.len() * n) by (nonlinear_arith)
        requires
            x == g * n + t,
            0 <= g < buckets.len(),
            0 <= t < n,
    ;
    vstd::arithmetic::div_mod::lemma_fundamental_div_mod_converse(x, n as int, g, t);
}

proof fn lemma_byte_bits(a: int, b: int, c: int, d: int, e: int, f: int, g: int, h: int)
    requires
        0 <= a <= 1 && 0 <= b <= 1 && 0 <= c <= 1 && 0 <= d <= 1,
        0 <= e <= 1 && 0 <= f <= 1 && 0 <= g <= 1 && 0 <= h <= 1,
    ensures
        ({
            let v = 128 * a + 64 * b + 32 * c + 16 * d + 8 * e + 4 * f + 2 * g + h;
            &&& (v / 128) % 2 == a
            &&& (v / 64) % 2 == b
            &&& (v / 32) % 2 == c
            &&& (v / 16) % 2 == d
            &&& (v / 8) % 2 == e
            &&& (v / 4) % 2 == f
            &&& (v / 2) % 2 == g
            &&& v % 2 == h
        }),
{
    let v = 128 * a + 64 * b + 32 * c + 16 * d + 8 * e + 4 * f + 2 * g + h;
    assert(v / 2 == 64 * a + 32 * b + 16 * c + 8 * d + 4 * e + 2 * f + g);
    assert(v / 4 == 32 * a + 16 * b + 8 * c + 4 * d + 2 * e + f);
    assert(v / 8 == 16 * a + 8 * b + 4 * c + 2 * d + e);
    assert(v / 16 == 8 * a + 4 * b + 2 * c + d);
    assert(v / 32 == 4 * a + 2 * b + c);
    assert(v / 64 == 2 * a + b);
    assert(v / 128 == a);
}

/// Bit `t` of a stored byte, counted from the high end, is the bit of the stream of bucket numbers
/// that stands there: of number `(8 * i + t) / n`, bit `(8 * i + t) % n`.
pub proof fn stored_bytes_hold_the_buckets(buckets: Seq<u32>, n: nat, i: int, t: int)
    requires
        0 < n,
        0 <= i < (buckets.len() * n) / 8,
        0 <= t < 8,
    ensures
        packed_buckets(buckets, n).len() == (buckets.len() * n) / 8,
        (packed_buckets(buckets, n)[i] as nat / pow2((7 - t) as nat)) % 2 == (buckets[(8 * i + t) / (
        n as int)] as nat / pow2(((8 * i + t) % (n as int)) as nat)) % 2,
{
    let s = bucket_bits(buckets, n);
    assert(are_bits(s));
    bytes_add_up_their_bits(s, i);
    let v = packed_buckets(buckets, n)[i];
    assert(v == packed_bits(s)[i]);
    let (a, b, c, d) = (s[8 * i], s[8 * i + 1], s[8 * i + 2], s[8 * i + 3]);
    let (e, f, g, h) = (s[8 * i + 4], s[8 * i + 5], s[8 * i + 6], s[8 * i + 7]);
    assert(a <= 1 && b <= 1 && c <= 1 && d <= 1 && e <= 1 && f <= 1 && g <= 1 && h <= 1);
    lemma_byte_bits(
        a as int,
        b as int,
        c as int,
        d as int,
        e as int,
        f as int,
        g as int,
        h as int,
    );
    assert((v as nat / pow2((7 - t) as nat)) % 2 == s[8 * i + t]) by {
        lemma2_to64();
        let w = v as nat;
        if t == 0 {
            assert((w / pow2(7)) % 2 == a);
        } else if t == 1 {
            assert((w / pow2(6)) % 2 == b);
        } else if t == 2 {
            assert((w / pow2(5)) % 2 == c);
        } else if t == 3 {
            assert((w / pow2(4)) % 2 == d);
        } else if t == 4 {
            assert((w / pow2(3)) % 2 == e);
        } else if t == 5 {
            assert((w / pow2(2)) % 2 == f);
        } else if t == 6 {
            assert((w / pow2(1)) % 2 == g);
        } else {
            assert(w / pow2(0) == w);
        }
    }
    assert(s[8 * i + t] == bit(
        buckets[(8 * i + t) / (n as int)] as nat,
        ((8 * i + t) % (n as int)) as nat,
    ));
}

/// Groups of one, two, four or eight bits fill a byte, and no others.
pub proof fn groups_that_fill_a_byte(n: nat)
    ensures
        fills_byte(n) <==> n == 1 || n == 2 || n == 4 || n == 8,
        fills_byte(n) ==> keys_per_byte(n) * n == 8,
{
    assert(8nat % 1nat == 0 && 8nat % 2nat == 0 && 8nat % 4nat == 0 && 8nat % 8nat == 0);
    if fills_byte(n) {
        lemma_fill(n);
    }
}

proof fn lemma_group_bit(b: nat, n: nat, j: nat, i: nat)
    requires
        1 <= n,
        (j + 1) * n <= 8,
        i < n,
    ensures
        bit(segment(b, n, j), i) == (b / pow2((8 - (j + 1) * n + i) as nat)) % 2,
        segment(b, n, j) < pow2(n),
{
    let low = (8 - (j + 1) * n) as nat;
    lemma_pow2_pos(n);
    crate::bits::lemma_bit_mod(b / pow2(low), n, i);
    crate::bits::lemma_bit_shift(b, low, i);
}

/// The reversal table reverses every group of bits of a byte in its place: bit `i` of a group is the
/// bit of the group that stands as far from its other end.
pub proof fn groups_are_reversed_in_place(b: nat, n: nat, j: nat, i: nat)
    requires
        fills_byte(n),
        b < 256,
        (j + 1) * n <= 8,
        i < n,
    ensures
        reversed_byte(b, n) < 256,
        (reversed_byte(b, n) / pow2((8 - (j + 1) * n + i) as nat)) % 2 == (b / pow2(
            (8 - (j + 1) * n + n - 1 - i) as nat,
        )) % 2,
        segment(reversed_byte(b, n), n, j) == reverse_bits(segment(b, n, j), n),
{
    lemma_fill(n);
    let k = keys_per_byte(n);
    lemma2_to64();
    assert(j < k) by (nonlinear_arith)
        requires
            (j + 1) * n <= 8,
            k * n == 8,
            n > 0,
    ;
    let ds = reversed_segments(b, n);
    assert forall|x: int| 0 <= x < k implies #[trigger] ds[x] < pow2(n) by {
        crate::bits::lemma_reverse_bound(segment(b, n, x as nat), n);
    }
    crate::bits::lemma_from_digits_bound(ds, n, k);
    let v = from_digits(ds, n, k);
    assert(reversed_byte(b, n) == v);
    crate::bits::lemma_digits(ds, n, k, j);
    assert(8 - (j + 1) * n == (k - 1 - j) * n) by (nonlinear_arith)
        requires
            k * n == 8,
    ;
    assert(segment(v, n, j) == ds[j as int]);
    lemma_group_bit(v, n, j, i);
    lemma_group_bit(b, n, j, (n - 1 - i) as nat);
    crate::bits::reversal_swaps_the_ends(segment(b, n, j), n, i);
}

/// Groups that do not fill a byte leave room for one more group below them.
pub proof fn groups_that_leave_room(b: nat, n: nat)
    requires
        b < 256,
        1 <= n,
    ensures
        n > 8 ==> reversed_byte(b, n) == 0,
        5 <= n <= 7 ==> reversed_byte(b, n) == (reverse_bits(b / pow2((8 - n) as nat), n) * pow2(n))
            % 256,
        n == 3 ==> reversed_byte(b, n) == ((reverse_bits(b / 32, 3) * 8 + reverse_bits(
            (b / 4) % 8,
            3,
        )) * 8) % 256,
{
    lemma2_to64();
    if n > 8 {
        assert(8nat / n == 0) by (nonlinear_arith)
            requires
                n > 8,
        ;
        assert(from_digits(reversed_segments(b, n), n, 0) == 0);
        assert(8nat % n != 0) by (nonlinear_arith)
            requires
                n > 8,
        ;
        assert(0 * pow2(n) == 0) by (nonlinear_arith);
    } else if 5 <= n <= 7 {
        assert(8nat / 5nat == 1 && 8nat / 6nat == 1 && 8nat / 7nat == 1);
        assert(8nat % 5nat == 3 && 8nat % 6nat == 2 && 8nat % 7nat == 1);
        let ds = reversed_segments(b, n);
        let d = pow2((8 - n) as nat);
        assert(from_digits(ds, n, 0) == 0);
        assert(0 * pow2(n) == 0) by (nonlinear_arith);
        assert(from_digits(ds, n, 1) == ds[0]);
        assert(8 - (0 + 1) * n == 8 - n) by (nonlinear_arith);
        lemma_pow2_adds((8 - n) as nat, n);
        lemma_pow2_pos((8 - n) as nat);
        lemma_pow2_pos(n);
        let q = b / d;
        assert(q < pow2(n)) by {
            vstd::arithmetic::div_mod::lemma_fundamental_div_mod(b as int, d as int);
            let m = b % d;
            let p = pow2(n);
            assert(q < p) by (nonlinear_arith)
                requires
                    b == d * q + m,
                    0 <= m,
                    b < d * p,
                    d > 0,
            ;
        }
        vstd::arithmetic::div_mod::lemma_small_mod(q, pow2(n));
        assert(segment(b, n, 0) == q);
        assert(ds[0] == reverse_bits(q, n));
    } else if n == 3 {
        assert(8nat / 3nat == 2 && 8nat % 3nat == 2);
        let ds = reversed_segments(b, 3);
        assert(from_digits(ds, 3, 0) == 0);
        assert(from_digits(ds, 3, 1) == ds[0]);
        assert(from_digits(ds, 3, 2) == from_digits(ds, 3, 1) * pow2(3) + ds[1]);
        assert(pow2(5) == 32 && pow2(2) == 4 && pow2(3) == 8);
        assert(b / 32 < 8);
        assert(segment(b, 3, 0) == (b / pow2(5)) % pow2(3));
        assert(segment(b, 3, 0) == b / 32);
        assert(segment(b, 3, 1) == (b / 4) % 8);
    }
}

/// A bucket number is read from a byte by the bits that stand there, from the high end.
pub proof fn bucket_numbers_stand_side_by_side(b: nat, n: nat, j: nat)
    requires
        n > 0,
        (j + 1) * n <= 8,
    ensures
        fills_byte(n) ==> bucket_index(b, n, j) == (b / pow2((8 - (j + 1) * n) as nat)) % pow2(n),
        bucket_index(b, n, j) == (b / pow2((8 - 8nat % n - (j + 1) * n) as nat)) % pow2(n),
{
    vstd::arithmetic::div_mod::lemma_fundamental_div_mod(8, n as int);
    let q = 8nat / n;
    let rest = 8nat % n;
    assert(j < q && (q - 1 - j) * n == 8 - rest - (j + 1) * n) by (nonlinear_arith)
        requires
            (j + 1) * n <= 8,
            8 == n * q + rest,
            0 <= rest < n,
    ;
    if fills_byte(n) {
        lemma_whole_byte(b, n, j);
    }
}

proof fn lemma_whole_byte(b: nat, n: nat, j: nat)
    requires
        fills_byte(n),
        (j + 1) * n <= 8,
    ensures
        bucket_index(b, n, j) == (b / pow2((8 - (j + 1) * n) as nat)) % pow2(n),
{
    lemma_fill(n);
    let k = keys_per_byte(n);
    assert(j < k) by (nonlinear_arith)
        requires
            (j + 1) * n <= 8,
            k * n == 8,
            n > 0,
    ;
    assert(8 - (j + 1) * n == (k - 1 - j) * n) by (nonlinear_arith)
        requires
            k * n == 8,
    ;
}

/// Bit `t` of the bucket number that is read at place `j` of byte `i` is the bit of that byte that
/// stands `j * n + t` places below its high end, and a bucket number has no bits beyond `n`.
pub proof fn unpacked_numbers_hold_the_bits(packed: Seq<u8>, n: nat, i: int, j: nat, t: nat)
    requires
        fills_byte(n),
        0 <= i < packed.len(),
        (j + 1) * n <= 8,
        t < n,
    ensures
        unpacked_buckets(packed, n).len() * n == 8 * packed.len(),
        0 <= i * keys_per_byte(n) + j < unpacked_buckets(packed, n).len(),
        0 <= unpacked_buckets(packed, n)[i * keys_per_byte(n) + j] < pow2(n),
        (unpacked_buckets(packed, n)[i * keys_per_byte(n) + j] as nat / pow2(t)) % 2 == (
        packed[i] as nat / pow2((7 - (j * n + t)) as nat)) % 2,
{
    lemma_fill(n);
    let k = keys_per_byte(n);
    let x = i * k + j;
    let b = packed[i] as nat;
    lemma2_to64();
    assert(j < k) by (nonlinear_arith)
        requires
            (j + 1) * n <= 8,
            k * n == 8,
            n > 0,
    ;
    assert(0 <= x < packed.len() * k && packed.len() * k * n == 8 * packed.len())
        by (nonlinear_arith)
        requires
            x == i * k + j,
            0 <= i < packed.len(),
            0 <= j < k,
            k * n == 8,
    ;
    vstd::arithmetic::div_mod::lemma_fundamental_div_mod_converse(x, k as int, i, j as int);
    groups_are_reversed_in_place(b, n, j, t);
    bucket_numbers_stand_side_by_side(reversed_byte(b, n), n, j);
    let v = bucket_index(reversed_byte(b, n), n, j);
    assert(v == reverse_bits(segment(b, n, j), n));
    crate::bits::reversal_swaps_the_ends(segment(b, n, j), n, t);
    lemma_group_bit(b, n, j, (n - 1 - t) as nat);
    assert(8 - (j + 1) * n + n - 1 - t == 7 - (j * n + t)) by (nonlinear_arith);
    assert(pow2(n) <= 256) by {
        if n < 8 {
            lemma_pow2_strictly_increases(n, 8);
        }
    }
}

} // verus!
