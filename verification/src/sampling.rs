//! The documents from which a codec is trained.

use rand::seq::SliceRandom;
use rand::SeedableRng;
use vstd::prelude::*;

use crate::strided::{are_lengths, lemma_rows_agree, lemma_rows_monotonic, rows_before, total_rows};

verus! {

/// How `rand`, at the version in use, orders `items` with a generator seeded by `seed`.
pub uninterp spec fn seeded_order(seed: u64, items: Seq<u32>) -> Seq<u32>;

/// Calls `rand::seq::SliceRandom::shuffle` with `rand::rngs::StdRng::seed_from_u64`. The outcome is
/// a function of the seed and the items, and holds the same items.
#[verifier::external_body]
fn shuffle_seeded(seed: u64, items: &mut Vec<u32>)
    ensures
        final(items)@ == seeded_order(seed, old(items)@),
        final(items)@.to_multiset() == old(items)@.to_multiset(),
{
    items.shuffle(&mut rand::rngs::StdRng::seed_from_u64(seed));
}

/// Calls `rand::seq::SliceRandom::shuffle` with the generator of the thread. The outcome holds the
/// same items; their order is left to chance.
#[verifier::external_body]
fn shuffle_anew(items: &mut Vec<u32>)
    ensures
        final(items)@.to_multiset() == old(items)@.to_multiset(),
{
    items.shuffle(&mut rand::rng());
}

/// The largest number whose square is at most `x`.
pub open spec fn integer_root(x: nat) -> nat {
    choose|r: nat| #[trigger] (r * r) <= x < (r + 1) * (r + 1)
}

/// There is one largest number whose square is at most `x`.
pub proof fn root_is_unique(x: nat, r: nat)
    requires
        r * r <= x < (r + 1) * (r + 1),
    ensures
        r == integer_root(x),
{
    let c = integer_root(x);
    assert(c * c <= x < (c + 1) * (c + 1));
    assert(c == r) by (nonlinear_arith)
        requires
            r * r <= x < (r + 1) * (r + 1),
            c * c <= x < (c + 1) * (c + 1),
            0 <= r,
            0 <= c,
    ;
}

/// How many of `n` documents are sampled: one more than sixteen times the square root of 120 times
/// their number, as far as there are that many documents.
pub open spec fn sample_size(n: nat) -> nat {
    let wanted = 1 + integer_root(30_720 * n);
    if wanted < n {
        wanted
    } else {
        n
    }
}

/// How many of `n` documents are sampled.
pub fn sample_count(n: usize) -> (r: usize)
    ensures
        r == sample_size(n as nat),
        r <= n,
        r < n ==> r > 0 && (r - 1) * (r - 1) <= 30_720 * n < r * r,
        r == n && n > 0 ==> (n - 1) * (n - 1) <= 30_720 * n,
{
    let square: u128 = 30_720 * (n as u128);
    let mut low: usize = 0;
    let mut high: usize = n;
    assert(0 * 0 == 0);
    while low < high
        invariant
            low <= high <= n,
            square == 30_720 * n,
            low * low <= square,
            high < n ==> square < (high + 1) * (high + 1),
        decreases high - low,
    {
        let mid: usize = high - (high - low) / 2;
        assert(mid * mid <= 0xffff_ffff_ffff_ffff * 0xffff_ffff_ffff_ffff) by (nonlinear_arith)
            requires
                0 <= mid <= 0xffff_ffff_ffff_ffff,
        ;
        if (mid as u128) * (mid as u128) <= square {
            low = mid;
        } else {
            high = mid - 1;
        }
    }
    proof {
        let x = 30_720 * (n as nat);
        if low < n {
            root_is_unique(x, low as nat);
        } else {
            assert(x < (x + 1) * (x + 1)) by (nonlinear_arith)
                requires
                    0 <= x,
            ;
            lemma_root_exists(x, x);
            let c = integer_root(x);
            assert(c >= n) by (nonlinear_arith)
                requires
                    n * n <= x,
                    x < (c + 1) * (c + 1),
                    0 <= c,
                    0 <= n,
            ;
        }
    }
    proof {
        samples_are_as_large_as_the_root(n as nat);
    }
    if low < n {
        low + 1
    } else {
        n
    }
}

/// A sample is as large as one more than the square root of 30 720 times the number of documents,
/// rounded down, and takes all documents when there are no more.
pub proof fn samples_are_as_large_as_the_root(n: nat)
    ensures
        sample_size(n) <= n,
        sample_size(n) < n ==> sample_size(n) > 0 && (sample_size(n) - 1) * (sample_size(n) - 1)
            <= 30_720 * n < sample_size(n) * sample_size(n),
        sample_size(n) == n && n > 0 ==> (n - 1) * (n - 1) <= 30_720 * n,
{
    let x = 30_720 * n;
    assert(x < (x + 1) * (x + 1)) by (nonlinear_arith)
        requires
            0 <= x,
    ;
    lemma_root_exists(x, x);
    let c = integer_root(x);
    if n > 0 && c + 1 >= n {
        assert((n - 1) * (n - 1) <= c * c) by (nonlinear_arith)
            requires
                0 < n <= c + 1,
        ;
    }
}

/// The root of a number is the largest number whose square is no larger.
pub proof fn roots_are_largest(x: nat)
    ensures
        integer_root(x) * integer_root(x) <= x,
        (integer_root(x) + 1) * (integer_root(x) + 1) > x,
{
    assert(x < (x + 1) * (x + 1)) by (nonlinear_arith)
        requires
            0 <= x,
    ;
    lemma_root_exists(x, x);
}

proof fn lemma_root_exists(x: nat, bound: nat)
    requires
        x < (bound + 1) * (bound + 1),
    ensures
        integer_root(x) * integer_root(x) <= x < (integer_root(x) + 1) * (integer_root(x) + 1),
    decreases bound,
{
    if bound * bound <= x {
        root_is_unique(x, bound);
    } else {
        assert(bound > 0) by (nonlinear_arith)
            requires
                bound * bound > x,
                0 <= x,
        ;
        lemma_root_exists(x, (bound - 1) as nat);
    }
}

/// The numbers below `n`, in order.
pub open spec fn numbers_below(n: u32) -> Seq<u32> {
    Seq::new(n as nat, |i: int| i as u32)
}

/// How many documents a sample holds. Documents are numbered by `u32`.
pub open spec fn sample_len(n: usize) -> nat {
    if sample_size(n as nat) < (n as u32) {
        sample_size(n as nat)
    } else {
        (n as u32) as nat
    }
}

/// `sample` names as many different documents as a sample holds.
pub open spec fn is_sample(sample: Seq<u32>, n: usize) -> bool {
    &&& sample.len() == sample_len(n)
    &&& sample.no_duplicates()
    &&& forall|i: int| 0 <= i < sample.len() ==> #[trigger] sample[i] < (n as u32)
}

/// Takes the first documents of an ordering of all of them.
fn first_documents(order: &Vec<u32>, n: usize) -> (r: Vec<u32>)
    requires
        order@.to_multiset() == numbers_below(n as u32).to_multiset(),
    ensures
        is_sample(r@, n),
        r@ == order@.take(sample_len(n) as int),
{
    let count: usize = sample_count(n);
    proof {
        let all = numbers_below(n as u32);
        all.lemma_multiset_has_no_duplicates();
        order@.lemma_multiset_has_no_duplicates_conv();
        order@.to_multiset_ensures();
        all.to_multiset_ensures();
        assert forall|i: int| 0 <= i < order.len() implies #[trigger] order[i] < (n as u32) by {
            assert(order@.contains(order[i]));
            assert(order@.to_multiset().count(order[i]) > 0);
            assert(all.contains(order[i]));
        }
    }
    let len: usize = if count < order.len() {
        count
    } else {
        order.len()
    };
    let mut out: Vec<u32> = Vec::new();
    let mut i: usize = 0;
    while i < len
        invariant
            i <= len <= order.len(),
            out@ == order@.take(i as int),
        decreases len - i,
    {
        out.push(order[i]);
        i += 1;
        assert(out@ =~= order@.take(i as int));
    }
    out
}

/// Samples documents to train a codec from. The sample depends on nothing but the seed and the
/// number of documents; without a seed it is left to chance.
pub fn sample_passages(n: usize, seed: Option<u64>) -> (r: Vec<u32>)
    ensures
        is_sample(r@, n),
        seed matches Some(s) ==> r@ == seeded_order(s, numbers_below(n as u32)).take(
            sample_len(n) as int,
        ),
        r@.no_duplicates(),
        forall|i: int| 0 <= i < r@.len() ==> (#[trigger] r@[i]) < (n as u32),
        n <= u32::MAX ==> r@.len() == sample_size(n as nat),
        r@.len() <= sample_size(n as nat),
        r@.len() <= (n as u32),
        r@.len() == sample_size(n as nat) || r@.len() == (n as u32),
        seed matches Some(s) ==> r@ == seeded_order(
            s,
            Seq::new((n as u32) as nat, |i: int| i as u32),
        ).take(r@.len() as int),
{
    let count: u32 = n as u32;
    let mut order: Vec<u32> = Vec::new();
    let mut i: u32 = 0;
    while i < count
        invariant
            i <= count,
            order@ == numbers_below(i),
        decreases count - i,
    {
        order.push(i);
        i += 1;
        assert(order@ =~= numbers_below(i));
    }
    match seed {
        Some(s) => {
            shuffle_seeded(s, &mut order);
        },
        None => {
            shuffle_anew(&mut order);
        },
    }
    proof {
        assert(numbers_below(n as u32) =~= Seq::new((n as u32) as nat, |k: int| k as u32));
        samples_are_as_large_as_the_root(n as nat);
        if n <= u32::MAX {
            assert((n as u32) == n);
        }
    }
    first_documents(&order, n)
}

/// Lengths of the sampled documents.
pub open spec fn sampled(lens: Seq<i64>, sample: Seq<u32>) -> Seq<i64> {
    Seq::new(sample.len(), |i: int| lens[sample[i] as int])
}

/// Taking out one of several lengths takes its rows away.
proof fn lemma_rows_remove(lens: Seq<i64>, p: int)
    requires
        0 <= p < lens.len(),
    ensures
        total_rows(lens) == total_rows(lens.remove(p)) + lens[p],
    decreases lens.len(),
{
    let rest = lens.remove(p);
    if p == lens.len() - 1 {
        lemma_rows_agree(lens, rest, rest.len());
    } else {
        let last = lens.len() - 1;
        lemma_rows_remove(lens.drop_last(), p);
        lemma_rows_agree(lens, lens.drop_last(), last as nat);
        assert(lens.drop_last().remove(p) =~= rest.drop_last());
        lemma_rows_agree(rest, rest.drop_last(), (last - 1) as nat);
    }
}

/// A sample without repetition has no more rows than all documents together.
proof fn lemma_sample_rows(lens: Seq<i64>, sample: Seq<u32>, n: nat)
    requires
        are_lengths(lens),
        n <= lens.len(),
        sample.no_duplicates(),
        forall|i: int| 0 <= i < sample.len() ==> #[trigger] sample[i] < n,
    ensures
        total_rows(sampled(lens, sample)) <= rows_before(lens, n),
    decreases n,
{
    let rows = sampled(lens, sample);
    if sample.len() == 0 {
        lemma_rows_monotonic(lens, 0, n);
    } else if n > 0 {
        assert(sample[0] < n);
        let m = (n - 1) as nat;
        if exists|p: int| 0 <= p < sample.len() && #[trigger] sample[p] == m {
            let p = choose|p: int| 0 <= p < sample.len() && #[trigger] sample[p] == m;
            let rest = sample.remove(p);
            lemma_rows_remove(rows, p);
            assert(rows.remove(p) =~= sampled(lens, rest));
            assert(rest.no_duplicates());
            assert forall|i: int| 0 <= i < rest.len() implies #[trigger] rest[i] < m by {
                let j = if i < p {
                    i
                } else {
                    i + 1
                };
                assert(rest[i] == sample[j]);
                assert(sample[j] != sample[p]);
            }
            lemma_sample_rows(lens, rest, m);
        } else {
            assert(forall|i: int| 0 <= i < sample.len() ==> #[trigger] sample[i] < m);
            lemma_sample_rows(lens, sample, m);
            assert(0 <= lens[n - 1]);
        }
    } else {
        assert(sample[0] < n);
    }
}

/// The lengths of the sampled documents, which have no more rows than all documents.
pub fn sampled_lengths(lens: &Vec<i64>, sample: &Vec<u32>) -> (r: Vec<i64>)
    requires
        are_lengths(lens@),
        sample@.no_duplicates(),
        forall|i: int| 0 <= i < sample.len() ==> #[trigger] sample[i] < lens.len(),
    ensures
        r@ == sampled(lens@, sample@),
        r@.len() == sample@.len(),
        forall|i: int| 0 <= i < r@.len() ==> #[trigger] r@[i] == lens@[sample@[i] as int],
        are_lengths(r@),
        total_rows(r@) <= total_rows(lens@),
{
    let mut out: Vec<i64> = Vec::new();
    let mut i: usize = 0;
    while i < sample.len()
        invariant
            i <= sample.len(),
            forall|j: int| 0 <= j < sample.len() ==> #[trigger] sample[j] < lens.len(),
            out@ == sampled(lens@, sample@.take(i as int)),
        decreases sample.len() - i,
    {
        assert(sample[i as int] < lens.len());
        out.push(lens[sample[i] as usize]);
        i += 1;
        assert(out@ =~= sampled(lens@, sample@.take(i as int)));
    }
    proof {
        assert(sample@.take(i as int) =~= sample@);
        lemma_sample_rows(lens@, sample@, lens@.len());
    }
    out
}

/// Rows held out of a sample of `total` rows: a twentieth, rounded to the nearest number and half
/// upwards, and no more than 50 000.
pub open spec fn heldout_rows(total: int) -> int {
    let part = (total + 10) / 20;
    if part < 50_000 {
        part
    } else {
        50_000
    }
}

/// How many rows of a sample are held out.
pub fn heldout_size(total: i64) -> (r: i64)
    requires
        0 <= total,
    ensures
        r == heldout_rows(total as int),
        0 <= r <= total,
        r <= 50_000,
        20 * r <= total + 10,
        r < 50_000 ==> total - 10 < 20 * r,
{
    if total >= 1_000_000 {
        50_000
    } else {
        let part: i64 = (total + 10) / 20;
        if part < 50_000 {
            part
        } else {
            50_000
        }
    }
}

/// A twentieth of the sample is held out, to the nearest row and half a row upwards, and no more
/// than 50 000 rows.
pub proof fn a_twentieth_is_held_out(total: int)
    requires
        0 <= total,
    ensures
        0 <= heldout_rows(total) <= 50_000,
        20 * heldout_rows(total) <= total + 10,
        heldout_rows(total) < 50_000 ==> total - 10 < 20 * heldout_rows(total),
{
}

/// A larger sample has no fewer rows held out.
pub proof fn larger_samples_hold_out_more(a: int, b: int)
    requires
        0 <= a <= b,
    ensures
        heldout_rows(a) <= heldout_rows(b),
{
}

/// The sampled lengths are those of the sampled documents, in their order.
pub proof fn sampled_lengths_are_the_documents_own(lens: Seq<i64>, sample: Seq<u32>, i: int)
    requires
        0 <= i < sample.len(),
    ensures
        sampled(lens, sample).len() == sample.len(),
        sampled(lens, sample)[i] == lens[sample[i] as int],
{
}

/// Some rows of a sampled document.
#[derive(Clone, Copy, Debug, PartialEq, Eq, Structural)]
pub struct RowSlice {
    /// Place of the document in the sample.
    pub place: usize,
    /// The first row.
    pub start: i64,
    /// The number of rows.
    pub rows: i64,
}

/// The documents behind place `d` do not fill the held-out rows.
pub open spec fn reaches(lens: Seq<i64>, held: int, d: int) -> bool {
    total_rows(lens) - rows_before(lens, (d + 1) as nat) < held
}

/// The rows of the document at place `d` that are held out.
pub open spec fn heldout_slice(lens: Seq<i64>, held: int, d: int) -> RowSlice {
    let missing = held - (total_rows(lens) - rows_before(lens, (d + 1) as nat));
    let rows = if lens[d] <= missing {
        lens[d] as int
    } else {
        missing
    };
    RowSlice { place: d as usize, start: (lens[d] - rows) as i64, rows: rows as i64 }
}

/// `r` holds out `held` rows at the end of the sample: a slice of each document that is reached
/// from the end.
pub open spec fn is_heldout(r: Seq<RowSlice>, lens: Seq<i64>, held: int) -> bool {
    &&& r.len() <= lens.len()
    &&& forall|d: int|
        0 <= d < lens.len() ==> (#[trigger] reaches(lens, held, d) <==> lens.len() - r.len() <= d)
    &&& forall|i: int|
        0 <= i < r.len() ==> #[trigger] r[i] == heldout_slice(
            lens,
            held,
            lens.len() - r.len() + i,
        )
}

/// Holds out `held` rows at the end of a sample with documents of these lengths.
pub fn heldout_slices(lens: &Vec<i64>, held: i64) -> (r: Vec<RowSlice>)
    requires
        are_lengths(lens@),
        total_rows(lens@) <= i64::MAX,
        0 <= held,
    ensures
        is_heldout(r@, lens@, held as int),
        forall|i: int|
            0 <= i < r@.len() ==> (#[trigger] r@[i]).place == lens@.len() - r@.len() + i,
        forall|i: int|
            0 <= i < r@.len() ==> (#[trigger] r@[i]).start + r@[i].rows == lens@[lens@.len()
                - r@.len() + i] && r@[i].start >= 0 && r@[i].rows >= 0,
        forall|i: int| 0 < i < r@.len() ==> (#[trigger] r@[i]).start == 0,
        held <= total_rows(lens@) ==> r@.fold_left(0int, |sum: int, s: RowSlice| sum + s.rows)
            == held,
        held > total_rows(lens@) ==> r@.len() == lens@.len() && forall|i: int|
            0 <= i < r@.len() ==> (#[trigger] r@[i]).rows == lens@[i],
        r@.len() == 0 <==> held == 0 || lens@.len() == 0,
        r@.len() > 0 ==> total_rows(lens@) - rows_before(lens@, (lens@.len() - r@.len() + 1) as nat)
            < held,
{
    let mut reversed: Vec<RowSlice> = Vec::new();
    let mut taken: i64 = 0;
    let mut i: usize = lens.len();
    while i > 0 && taken < held
        invariant
            i <= lens.len(),
            are_lengths(lens@),
            total_rows(lens@) <= i64::MAX,
            0 <= taken <= held,
            reversed.len() == lens.len() - i,
            taken < held ==> taken == total_rows(lens@) - rows_before(lens@, i as nat),
            taken == held ==> total_rows(lens@) - rows_before(lens@, i as nat) >= held,
            forall|d: int| i <= d < lens.len() ==> #[trigger] reaches(lens@, held as int, d),
            forall|k: int|
                0 <= k < reversed.len() ==> #[trigger] reversed[k] == heldout_slice(
                    lens@,
                    held as int,
                    lens.len() - 1 - k,
                ),
        decreases i,
    {
        i -= 1;
        let needed: i64 = held - taken;
        let len: i64 = lens[i];
        proof {
            lemma_rows_monotonic(lens@, i as nat, lens@.len());
            lemma_rows_monotonic(lens@, i as nat + 1, lens@.len());
            assert(reaches(lens@, held as int, i as int));
            assert(0 <= lens[i as int]);
        }
        if len <= needed {
            reversed.push(RowSlice { place: i, start: 0, rows: len });
            taken = taken + len;
        } else {
            reversed.push(RowSlice { place: i, start: len - needed, rows: needed });
            taken = held;
        }
    }
    proof {
        assert forall|d: int| 0 <= d < i implies !#[trigger] reaches(lens@, held as int, d) by {
            lemma_rows_monotonic(lens@, (d + 1) as nat, i as nat);
        }
    }
    let mut out: Vec<RowSlice> = Vec::new();
    let mut k: usize = reversed.len();
    while k > 0
        invariant
            k <= reversed.len() <= lens.len(),
            out.len() == reversed.len() - k,
            forall|j: int|
                0 <= j < out.len() ==> #[trigger] out[j] == reversed[reversed.len() - 1 - j],
        decreases k,
    {
        k -= 1;
        out.push(reversed[k]);
    }
    proof {
        heldout_slices_end_the_sample(out@, lens@, held as int);
    }
    out
}

/// The slices that are held out are those of the last documents of the sample, one for each and in
/// order. A slice ends where its document ends; only the first may leave out rows of its document.
/// Together they have as many rows as are held out.
pub proof fn heldout_slices_end_the_sample(r: Seq<RowSlice>, lens: Seq<i64>, held: int)
    requires
        is_heldout(r, lens, held),
        are_lengths(lens),
        lens.len() <= usize::MAX,
        total_rows(lens) <= i64::MAX,
        0 <= held,
    ensures
        r.len() <= lens.len(),
        forall|i: int| 0 <= i < r.len() ==> (#[trigger] r[i]).place == lens.len() - r.len() + i,
        forall|i: int|
            0 <= i < r.len() ==> (#[trigger] r[i]).start + r[i].rows == lens[lens.len() - r.len()
                + i] && r[i].start >= 0 && r[i].rows >= 0,
        forall|i: int| 0 < i < r.len() ==> (#[trigger] r[i]).start == 0,
        held <= total_rows(lens) ==> r.fold_left(0int, |sum: int, s: RowSlice| sum + s.rows)
            == held,
        held > total_rows(lens) ==> r.len() == lens.len() && forall|i: int|
            0 <= i < r.len() ==> (#[trigger] r[i]).rows == lens[i],
        r.len() == 0 <==> held == 0 || lens.len() == 0,
        r.len() > 0 ==> total_rows(lens) - rows_before(lens, (lens.len() - r.len() + 1) as nat)
            < held,
{
    let k = lens.len() - r.len();
    if lens.len() > 0 {
        assert(reaches(lens, held, lens.len() - 1) <==> held > 0);
    }
    if r.len() > 0 {
        assert(reaches(lens, held, k));
    }
    if held > total_rows(lens) {
        if lens.len() > 0 {
            lemma_rows_monotonic(lens, 0, 1);
            assert(reaches(lens, held, 0));
        }
        assert forall|i: int| 0 <= i < r.len() implies (#[trigger] r[i]).rows == lens[i] by {
            assert(r[i] == heldout_slice(lens, held, k + i));
            assert(0 <= lens[i]);
            lemma_rows_monotonic(lens, 0, i as nat);
        }
    }
    assert forall|i: int| 0 <= i < r.len() implies (#[trigger] r[i]).place == k + i && r[i].start
        + r[i].rows == lens[k + i] && r[i].start >= 0 && r[i].rows >= 0 && (i > 0 ==> r[i].start
        == 0) by {
        assert(r[i] == heldout_slice(lens, held, k + i));
        assert(reaches(lens, held, k + i));
        assert(0 <= lens[k + i]);
        lemma_rows_monotonic(lens, (k + i) as nat, (k + i + 1) as nat);
        lemma_rows_monotonic(lens, (k + i + 1) as nat, lens.len());
        if i > 0 {
            assert(reaches(lens, held, k + i - 1));
        }
    }
    if held <= total_rows(lens) {
        lemma_heldout_sum(r, lens, held, r.len());
        assert(r.take(r.len() as int) =~= r);
    }
}

proof fn lemma_heldout_sum(r: Seq<RowSlice>, lens: Seq<i64>, held: int, n: nat)
    requires
        is_heldout(r, lens, held),
        are_lengths(lens),
        lens.len() <= usize::MAX,
        total_rows(lens) <= i64::MAX,
        0 <= held <= total_rows(lens),
        n <= r.len(),
    ensures
        r.take(n as int).fold_left(0int, |sum: int, s: RowSlice| sum + s.rows) == if n == 0 {
            0
        } else {
            rows_before(lens, (lens.len() - r.len() + n) as nat) - (total_rows(lens) - held)
        },
        n == r.len() && n == 0 ==> held == 0,
    decreases n,
{
    let k = lens.len() - r.len();
    if n == 0 {
        assert(r.take(0) =~= Seq::empty());
        if r.len() == 0 && lens.len() > 0 {
            assert(!reaches(lens, held, lens.len() - 1));
        }
    } else {
        lemma_heldout_sum(r, lens, held, (n - 1) as nat);
        assert(r.take(n as int).drop_last() =~= r.take(n - 1));
        let d = k + n - 1;
        assert(r[n - 1] == heldout_slice(lens, held, k + (n - 1)));
        assert(reaches(lens, held, d));
        assert(0 <= lens[d]);
        lemma_rows_monotonic(lens, d as nat, (d + 1) as nat);
        lemma_rows_monotonic(lens, (d + 1) as nat, lens.len());
        if n == 1 {
            if d > 0 {
                assert(!reaches(lens, held, d - 1));
            } else {
                assert(rows_before(lens, 0) == 0);
            }
        } else {
            assert(reaches(lens, held, d - 1));
        }
    }
}

/// The rows of one document, named by place and row.
pub open spec fn rows_at(place: int, start: int, n: int) -> Seq<(int, int)> {
    Seq::new(n as nat, |i: int| (place, start + i))
}

/// All rows of the first `n` documents, in order.
pub open spec fn all_rows(lens: Seq<i64>, n: nat) -> Seq<(int, int)>
    decreases n,
{
    if n == 0 {
        Seq::empty()
    } else {
        all_rows(lens, (n - 1) as nat) + rows_at(n - 1, 0, lens[n - 1] as int)
    }
}

/// All rows of the first `n` slices, in order.
pub open spec fn slice_rows(slices: Seq<RowSlice>, n: nat) -> Seq<(int, int)>
    decreases n,
{
    if n == 0 {
        Seq::empty()
    } else {
        let last = slices[n - 1];
        slice_rows(slices, (n - 1) as nat) + rows_at(
            last.place as int,
            last.start as int,
            last.rows as int,
        )
    }
}

/// The documents have as many rows as their lengths say.
pub proof fn lemma_all_rows_len(lens: Seq<i64>, n: nat)
    requires
        are_lengths(lens),
        n <= lens.len(),
    ensures
        all_rows(lens, n).len() == rows_before(lens, n),
    decreases n,
{
    if n > 0 {
        lemma_all_rows_len(lens, (n - 1) as nat);
        assert(0 <= lens[n - 1]);
    }
}

proof fn lemma_heldout_prefix(r: Seq<RowSlice>, lens: Seq<i64>, held: int, j: nat)
    requires
        is_heldout(r, lens, held),
        are_lengths(lens),
        lens.len() <= usize::MAX,
        total_rows(lens) <= i64::MAX,
        0 <= held <= total_rows(lens),
        j <= r.len(),
    ensures
        ({
            let n = (lens.len() - r.len() + j) as nat;
            let from = total_rows(lens) - held;
            slice_rows(r, j) == if rows_before(lens, n) <= from {
                Seq::empty()
            } else {
                all_rows(lens, n).skip(from)
            }
        }),
    decreases j,
{
    let k = lens.len() - r.len();
    let n = (k + j) as nat;
    let from = total_rows(lens) - held;
    if j == 0 {
        if k > 0 {
            assert(!reaches(lens, held, k - 1));
        } else {
            assert(rows_before(lens, 0) == 0);
        }
    } else {
        lemma_heldout_prefix(r, lens, held, (j - 1) as nat);
        let d = n - 1;
        assert(reaches(lens, held, d));
        assert(r[j - 1] == heldout_slice(lens, held, k + (j - 1)));
        lemma_rows_monotonic(lens, d as nat, n);
        lemma_rows_monotonic(lens, n, lens.len());
        assert(0 <= lens[d]);
        lemma_all_rows_len(lens, d as nat);
        lemma_all_rows_len(lens, n);
        assert(slice_rows(r, j) =~= all_rows(lens, n).skip(from));
    }
}

/// The rows that are held out are the last rows of the sample, in order.
pub proof fn heldout_is_the_end(r: Seq<RowSlice>, lens: Seq<i64>, held: int)
    requires
        is_heldout(r, lens, held),
        are_lengths(lens),
        lens.len() <= usize::MAX,
        total_rows(lens) <= i64::MAX,
        0 <= held <= total_rows(lens),
    ensures
        slice_rows(r, r.len()) == all_rows(lens, lens.len()).skip(total_rows(lens) - held),
{
    lemma_heldout_prefix(r, lens, held, r.len());
    lemma_all_rows_len(lens, lens.len());
    if held == 0 {
        assert(all_rows(lens, lens.len()).skip(total_rows(lens)) =~= Seq::empty());
    }
}

/// The rows held out of a sample are a twentieth of it, to the nearest row, and 50 000 at most.
pub proof fn the_held_out_rows_are_a_twentieth(total: i64, r: i64)
    requires
        call_ensures(heldout_size, (total,), r),
        0 <= total,
    ensures
        r == 50_000 && 20 * r <= total + 10 || 0 <= r < 50_000 && total - 10 < 20 * r <= total + 10,
{
}

} // verus!
