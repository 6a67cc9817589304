//! Sorted identifier lists and rankings by score.

use vstd::prelude::*;

verus! {

/// Every entry is below the next one, so nothing occurs twice.
pub open spec fn increasing(s: Seq<i64>) -> bool {
    forall|i: int, j: int| 0 <= i < j < s.len() ==> #[trigger] s[i] < #[trigger] s[j]
}

/// Both lists hold the same values, however often and in whatever order.
pub open spec fn same_members(a: Seq<i64>, b: Seq<i64>) -> bool {
    forall|x: i64| #[trigger] a.contains(x) <==> b.contains(x)
}

/// The values of `s` in increasing order, each once.
pub open spec fn sorted_unique(s: Seq<i64>) -> Seq<i64> {
    choose|r: Seq<i64>| increasing(r) && #[trigger] same_members(r, s)
}

/// Two increasing lists with the same values are the same list.
pub proof fn lemma_increasing_unique(a: Seq<i64>, b: Seq<i64>)
    requires
        increasing(a),
        increasing(b),
        same_members(a, b),
    ensures
        a == b,
    decreases a.len(),
{
    if a.len() == 0 {
        if b.len() > 0 {
            assert(b.contains(b[0]));
            assert(a.contains(b[0]));
        }
        assert(a =~= b);
    } else {
        assert(a.contains(a.last()));
        assert(b.contains(a.last()));
        let n = a.len() - 1;
        let m = b.len() - 1;
        assert(b.contains(b.last()));
        assert(a.contains(b.last()));
        let p = choose|p: int| 0 <= p < b.len() && b[p] == a.last();
        let q = choose|q: int| 0 <= q < a.len() && a[q] == b.last();
        assert(p <= m);
        assert(q <= n);
        assert(a.last() == b.last()) by {
            if p < m {
                assert(b[p] < b[m]);
            }
            if q < n {
                assert(a[q] < a[n]);
            }
        }
        let a0 = a.drop_last();
        let b0 = b.drop_last();
        assert(increasing(a0));
        assert(increasing(b0));
        assert(same_members(a0, b0)) by {
            assert forall|x: i64| #[trigger] a0.contains(x) <==> b0.contains(x) by {
                if a0.contains(x) {
                    let i = choose|i: int| 0 <= i < a0.len() && a0[i] == x;
                    assert(a[i] == x);
                    assert(a.contains(x));
                    assert(b.contains(x));
                    let j = choose|j: int| 0 <= j < b.len() && b[j] == x;
                    assert(a[i] < a[n]);
                    assert(b0[j] == x);
                }
                if b0.contains(x) {
                    let j = choose|j: int| 0 <= j < b0.len() && b0[j] == x;
                    assert(b[j] == x);
                    assert(b.contains(x));
                    assert(a.contains(x));
                    let i = choose|i: int| 0 <= i < a.len() && a[i] == x;
                    assert(b[j] < b[m]);
                    assert(a0[i] == x);
                }
            }
        }
        lemma_increasing_unique(a0, b0);
        assert(a =~= a0.push(a.last()));
        assert(b =~= b0.push(b.last()));
    }
}

/// An increasing list with the values of `s` is the sorted list of `s`.
pub proof fn lemma_sorted_unique_is(s: Seq<i64>, r: Seq<i64>)
    requires
        increasing(r),
        same_members(r, s),
    ensures
        r == sorted_unique(s),
{
    let c = sorted_unique(s);
    assert(increasing(c) && same_members(c, s));
    assert(same_members(r, c)) by {
        assert forall|x: i64| #[trigger] r.contains(x) <==> c.contains(x) by {
            assert(r.contains(x) <==> s.contains(x));
            assert(c.contains(x) <==> s.contains(x));
        }
    }
    lemma_increasing_unique(r, c);
}

/// Where a value that is not in an increasing list would stand in it.
proof fn lemma_place(r: Seq<i64>, x: i64, n: nat) -> (p: int)
    requires
        increasing(r),
        n <= r.len(),
        !r.contains(x),
        forall|i: int| n <= i < r.len() ==> x < #[trigger] r[i],
    ensures
        0 <= p <= n,
        forall|i: int| 0 <= i < p ==> #[trigger] r[i] < x,
        forall|i: int| p <= i < r.len() ==> x < #[trigger] r[i],
    decreases n,
{
    if n == 0 {
        0
    } else {
        assert(r.contains(r[n - 1]));
        if r[n - 1] < x {
            n as int
        } else {
            lemma_place(r, x, (n - 1) as nat)
        }
    }
}

/// Every list has its values in increasing order.
pub proof fn lemma_sorted_unique_exists(s: Seq<i64>)
    ensures
        increasing(sorted_unique(s)),
        same_members(sorted_unique(s), s),
    decreases s.len(),
{
    if s.len() == 0 {
        assert(increasing(s) && same_members(s, s));
    } else {
        let x = s.last();
        let short = s.drop_last();
        lemma_sorted_unique_exists(short);
        let r = sorted_unique(short);
        assert forall|y: i64| #[trigger] s.contains(y) <==> short.contains(y) || y == x by {
            if s.contains(y) && y != x {
                let i = s.index_of(y);
                assert(short[i] == y);
            }
            if short.contains(y) {
                let i = short.index_of(y);
                assert(s[i] == y);
            }
        }
        if r.contains(x) {
            assert forall|y: i64| #[trigger] r.contains(y) <==> s.contains(y) by {
                assert(r.contains(y) <==> short.contains(y));
            }
            assert(increasing(r) && same_members(r, s));
        } else {
            let p = lemma_place(r, x, r.len());
            let all = r.insert(p, x);
            assert forall|y: i64| #[trigger] all.contains(y) <==> s.contains(y) by {
                assert(r.contains(y) <==> short.contains(y));
                if r.contains(y) {
                    let i = r.index_of(y);
                    if i < p {
                        assert(all[i] == y);
                    } else {
                        assert(all[i + 1] == y);
                    }
                }
                assert(all[p] == x);
                if all.contains(y) && y != x {
                    let i = all.index_of(y);
                    if i < p {
                        assert(r[i] == y);
                    } else {
                        assert(r[i - 1] == y);
                    }
                }
            }
            assert(increasing(all) && same_members(all, s));
        }
    }
}

/// Order and repetition do not matter for the sorted list.
pub proof fn sorting_forgets_order(a: Seq<i64>, b: Seq<i64>)
    requires
        same_members(a, b),
    ensures
        sorted_unique(a) == sorted_unique(b),
{
    lemma_sorted_unique_exists(a);
    let r = sorted_unique(a);
    assert(same_members(r, b)) by {
        assert forall|x: i64| #[trigger] r.contains(x) <==> b.contains(x) by {
            assert(a.contains(x) <==> b.contains(x));
        }
    }
    lemma_sorted_unique_is(b, r);
}

proof fn lemma_take_contains(s: Seq<i64>, k: int, x: i64)
    requires
        0 <= k < s.len(),
    ensures
        s.take(k + 1).contains(x) <==> s.take(k).contains(x) || x == s[k],
{
    let a = s.take(k + 1);
    let b = s.take(k);
    if a.contains(x) && x != s[k] {
        let i = choose|i: int| 0 <= i < a.len() && a[i] == x;
        assert(b[i] == x);
    }
    if b.contains(x) {
        let i = choose|i: int| 0 <= i < b.len() && b[i] == x;
        assert(a[i] == x);
    }
    assert(a[k] == s[k]);
}

proof fn lemma_push_contains(s: Seq<i64>, v: i64, x: i64)
    ensures
        s.push(v).contains(x) <==> s.contains(x) || x == v,
{
    let t = s.push(v);
    assert(t[s.len() as int] == v);
    if t.contains(x) && x != v {
        let i = choose|i: int| 0 <= i < t.len() && t[i] == x;
        assert(s[i] == x);
    }
    if s.contains(x) {
        let i = choose|i: int| 0 <= i < s.len() && s[i] == x;
        assert(t[i] == x);
    }
}

/// The values of two increasing lists, merged.
fn merge_unique(a: &Vec<i64>, b: &Vec<i64>) -> (r: Vec<i64>)
    requires
        increasing(a@),
        increasing(b@),
    ensures
        increasing(r@),
        forall|x: i64| #[trigger] r@.contains(x) <==> a@.contains(x) || b@.contains(x),
{
    let mut out: Vec<i64> = Vec::new();
    let mut i: usize = 0;
    let mut j: usize = 0;
    while i < a.len() || j < b.len()
        invariant
            i <= a@.len(),
            j <= b@.len(),
            increasing(a@),
            increasing(b@),
            increasing(out@),
            out@.len() > 0 && i < a@.len() ==> out@.last() < a@[i as int],
            out@.len() > 0 && j < b@.len() ==> out@.last() < b@[j as int],
            forall|x: i64| #[trigger]
                out@.contains(x) <==> a@.take(i as int).contains(x) || b@.take(j as int).contains(
                    x,
                ),
        decreases a@.len() - i + b@.len() - j,
    {
        let ghost before = out@;
        let ghost i0 = i as int;
        let ghost j0 = j as int;
        let v: i64;
        if j >= b.len() || (i < a.len() && a[i] < b[j]) {
            v = a[i];
            i += 1;
        } else if i >= a.len() || b[j] < a[i] {
            v = b[j];
            j += 1;
        } else {
            v = a[i];
            i += 1;
            j += 1;
        }
        out.push(v);
        proof {
            assert(increasing(out@)) by {
                assert forall|p: int, q: int| 0 <= p < q < out@.len() implies #[trigger] out@[p]
                    < #[trigger] out@[q] by {
                    if q == before.len() {
                        if p < before.len() - 1 {
                            assert(before[p] < before[before.len() - 1]);
                        }
                        assert(before.last() < v);
                    } else {
                        assert(before[p] < before[q]);
                    }
                }
            }
            assert forall|x: i64| #[trigger] out@.contains(x) <==> a@.take(i as int).contains(x)
                || b@.take(j as int).contains(x) by {
                lemma_push_contains(before, v, x);
                assert(before.contains(x) <==> a@.take(i0).contains(x) || b@.take(j0).contains(x));
                if i > i0 {
                    lemma_take_contains(a@, i0, x);
                }
                if j > j0 {
                    lemma_take_contains(b@, j0, x);
                }
            }
            if i < a@.len() && i0 < i {
                assert(a@[i0] < a@[i as int]);
            }
            if j < b@.len() && j0 < j {
                assert(b@[j0] < b@[j as int]);
            }
        }
    }
    assert(a@.take(a@.len() as int) == a@);
    assert(b@.take(b@.len() as int) == b@);
    out
}

fn sort_range(v: &Vec<i64>, lo: usize, hi: usize) -> (r: Vec<i64>)
    requires
        lo <= hi <= v@.len(),
    ensures
        increasing(r@),
        same_members(r@, v@.subrange(lo as int, hi as int)),
    decreases hi - lo,
{
    let ghost part = v@.subrange(lo as int, hi as int);
    if lo == hi {
        let out: Vec<i64> = Vec::new();
        assert(out@ =~= part);
        out
    } else if hi - lo == 1 {
        let mut out: Vec<i64> = Vec::new();
        out.push(v[lo]);
        assert(out@ =~= part);
        out
    } else {
        let mid: usize = lo + (hi - lo) / 2;
        let a = sort_range(v, lo, mid);
        let b = sort_range(v, mid, hi);
        let r = merge_unique(&a, &b);
        proof {
            let p1 = v@.subrange(lo as int, mid as int);
            let p2 = v@.subrange(mid as int, hi as int);
            assert forall|x: i64| #[trigger] r@.contains(x) <==> part.contains(x) by {
                assert(a@.contains(x) <==> p1.contains(x));
                assert(b@.contains(x) <==> p2.contains(x));
                if p1.contains(x) {
                    let i = choose|i: int| 0 <= i < p1.len() && p1[i] == x;
                    assert(part[i] == x);
                }
                if p2.contains(x) {
                    let i = choose|i: int| 0 <= i < p2.len() && p2[i] == x;
                    assert(part[i + (mid - lo)] == x);
                }
                if part.contains(x) {
                    let i = choose|i: int| 0 <= i < part.len() && part[i] == x;
                    if i < mid - lo {
                        assert(p1[i] == x);
                    } else {
                        assert(p2[i - (mid - lo)] == x);
                    }
                }
            }
        }
        r
    }
}

/// The values of `v` in increasing order, each once.
pub fn sort_unique(v: &Vec<i64>) -> (r: Vec<i64>)
    ensures
        r@ == sorted_unique(v@),
        increasing(r@),
        same_members(r@, v@),
        forall|i: int, j: int| 0 <= i < j < r@.len() ==> #[trigger] r@[i] < #[trigger] r@[j],
        forall|x: i64| #[trigger] r@.contains(x) <==> v@.contains(x),
{
    let r = sort_range(v, 0, v.len());
    assert(v@.subrange(0, v@.len() as int) == v@);
    proof {
        lemma_sorted_unique_is(v@, r@);
    }
    r
}

/// The values that two increasing lists have in common, in increasing order.
pub fn intersect_sorted_unique(a: &Vec<i64>, b: &Vec<i64>) -> (r: Vec<i64>)
    requires
        increasing(a@),
        increasing(b@),
    ensures
        increasing(r@),
        forall|i: int, j: int| 0 <= i < j < r@.len() ==> #[trigger] r@[i] < #[trigger] r@[j],
        forall|x: i64| #[trigger] r@.contains(x) <==> a@.contains(x) && b@.contains(x),
{
    let mut out: Vec<i64> = Vec::new();
    let mut i: usize = 0;
    let mut j: usize = 0;
    while i < a.len() && j < b.len()
        invariant
            i <= a@.len(),
            j <= b@.len(),
            increasing(a@),
            increasing(b@),
            increasing(out@),
            forall|k: int| 0 <= k < out@.len() && i < a@.len() ==> #[trigger] out@[k] < a@[i as int],
            forall|x: i64| #[trigger]
                out@.contains(x) <==> a@.take(i as int).contains(x) && b@.contains(x),
            forall|x: i64| #[trigger]
                out@.contains(x) <==> a@.contains(x) && b@.take(j as int).contains(x),
        decreases a@.len() - i + b@.len() - j,
    {
        let ghost before = out@;
        let ghost i0 = i as int;
        let ghost j0 = j as int;
        if a[i] < b[j] {
            proof {
                assert(!b@.contains(a@[i0])) by {
                    if b@.contains(a@[i0]) {
                        let k = choose|k: int| 0 <= k < b@.len() && b@[k] == a@[i0];
                        if k < j0 {
                            assert(b@.take(j0)[k] == a@[i0]);
                            assert(a@.contains(a@[i0]));
                            assert(out@.contains(a@[i0]));
                            let m = choose|m: int| 0 <= m < out@.len() && out@[m] == a@[i0];
                            assert(out@[m] < a@[i0]);
                        } else if k > j0 {
                            assert(b@[j0] < b@[k]);
                        }
                    }
                }
            }
            i += 1;
        } else if b[j] < a[i] {
            proof {
                assert(!a@.contains(b@[j0])) by {
                    if a@.contains(b@[j0]) {
                        let k = choose|k: int| 0 <= k < a@.len() && a@[k] == b@[j0];
                        if k < i0 {
                            assert(a@.take(i0)[k] == b@[j0]);
                            assert(b@.contains(b@[j0]));
                            assert(out@.contains(b@[j0]));
                            assert(b@.take(j0).contains(b@[j0]));
                            let m = choose|m: int|
                                0 <= m < b@.take(j0).len() && b@.take(j0)[m] == b@[j0];
                            assert(b@[m] < b@[j0]);
                        } else if k > i0 {
                            assert(a@[i0] < a@[k]);
                        }
                    }
                }
            }
            j += 1;
        } else {
            out.push(a[i]);
            proof {
                assert(a@.contains(a@[i0]));
                assert(b@.contains(b@[j0]));
            }
            i += 1;
            j += 1;
        }
        proof {
            if i > i0 && i < a@.len() {
                assert(a@[i0] < a@[i as int]);
            }
            assert forall|x: i64| #[trigger] out@.contains(x) <==> a@.take(i as int).contains(x)
                && b@.contains(x) by {
                if i > i0 {
                    lemma_take_contains(a@, i0, x);
                }
                lemma_push_contains(before, a@[i0], x);
                assert(before.contains(x) <==> a@.take(i0).contains(x) && b@.contains(x));
            }
            assert forall|x: i64| #[trigger] out@.contains(x) <==> a@.contains(x) && b@.take(
                j as int,
            ).contains(x) by {
                if j > j0 {
                    lemma_take_contains(b@, j0, x);
                }
                lemma_push_contains(before, a@[i0], x);
                assert(before.contains(x) <==> a@.contains(x) && b@.take(j0).contains(x));
            }
        }
    }
    proof {
        assert(a@.take(a@.len() as int) == a@);
        assert(b@.take(b@.len() as int) == b@);
    }
    out
}

/// Position `p` comes before position `q`: a higher key first, and of equal keys the lower
/// position.
pub open spec fn ranks_before(keys: Seq<i64>, p: usize, q: usize) -> bool {
    keys[p as int] > keys[q as int] || (keys[p as int] == keys[q as int] && p < q)
}

/// All positions of `keys`, the highest key first.
pub open spec fn is_ranking(r: Seq<usize>, keys: Seq<i64>) -> bool {
    &&& r.len() == keys.len()
    &&& forall|i: int| 0 <= i < r.len() ==> (#[trigger] r[i]) < keys.len()
    &&& forall|i: int, j: int|
        0 <= i < j < r.len() ==> ranks_before(keys, #[trigger] r[i], #[trigger] r[j])
}

fn merge_ranks(keys: &Vec<i64>, a: &Vec<usize>, b: &Vec<usize>) -> (r: Vec<usize>)
    requires
        forall|i: int| 0 <= i < a@.len() ==> (#[trigger] a@[i]) < keys@.len(),
        forall|i: int| 0 <= i < b@.len() ==> (#[trigger] b@[i]) < keys@.len(),
        forall|i: int, j: int|
            0 <= i < j < a@.len() ==> ranks_before(keys@, #[trigger] a@[i], #[trigger] a@[j]),
        forall|i: int, j: int|
            0 <= i < j < b@.len() ==> ranks_before(keys@, #[trigger] b@[i], #[trigger] b@[j]),
        forall|i: int, j: int|
            0 <= i < a@.len() && 0 <= j < b@.len() ==> #[trigger] a@[i] < #[trigger] b@[j],
        a@.len() + b@.len() <= usize::MAX,
    ensures
        r@.len() == a@.len() + b@.len(),
        forall|i: int| 0 <= i < r@.len() ==> a@.contains(#[trigger] r@[i]) || b@.contains(r@[i]),
        forall|i: int, j: int|
            0 <= i < j < r@.len() ==> ranks_before(keys@, #[trigger] r@[i], #[trigger] r@[j]),
{
    let mut out: Vec<usize> = Vec::new();
    let mut i: usize = 0;
    let mut j: usize = 0;
    #[verifier::loop_isolation(false)]
    while i < a.len() || j < b.len()
        invariant
            i <= a@.len(),
            j <= b@.len(),
            out@.len() == i + j,
            forall|k: int|
                0 <= k < out@.len() ==> a@.contains(#[trigger] out@[k]) || b@.contains(out@[k]),
            forall|k: int| 0 <= k < out@.len() ==> (#[trigger] out@[k]) < keys@.len(),
            forall|k: int|
                0 <= k < out@.len() && i < a@.len() ==> ranks_before(
                    keys@,
                    #[trigger] out@[k],
                    a@[i as int],
                ),
            forall|k: int|
                0 <= k < out@.len() && j < b@.len() ==> ranks_before(
                    keys@,
                    #[trigger] out@[k],
                    b@[j as int],
                ),
            forall|p: int, q: int|
                0 <= p < q < out@.len() ==> ranks_before(
                    keys@,
                    #[trigger] out@[p],
                    #[trigger] out@[q],
                ),
        decreases a@.len() - i + b@.len() - j,
    {
        let ghost i0 = i as int;
        let ghost j0 = j as int;
        if j >= b.len() || (i < a.len() && keys[a[i]] >= keys[b[j]]) {
            out.push(a[i]);
            assert(a@.contains(a@[i0]));
            i += 1;
        } else {
            out.push(b[j]);
            assert(b@.contains(b@[j0]));
            j += 1;
        }
        proof {
            if i < a@.len() && i > i0 {
                assert(ranks_before(keys@, a@[i0], a@[i as int]));
            }
            if j < b@.len() && j > j0 {
                assert(ranks_before(keys@, b@[j0], b@[j as int]));
            }
        }
    }
    out
}

fn rank_range(keys: &Vec<i64>, lo: usize, hi: usize) -> (r: Vec<usize>)
    requires
        lo <= hi <= keys@.len(),
    ensures
        r@.len() == hi - lo,
        forall|i: int| 0 <= i < r@.len() ==> lo <= (#[trigger] r@[i]) < hi,
        forall|i: int, j: int|
            0 <= i < j < r@.len() ==> ranks_before(keys@, #[trigger] r@[i], #[trigger] r@[j]),
    decreases hi - lo,
{
    if lo == hi {
        Vec::new()
    } else if hi - lo == 1 {
        let mut out: Vec<usize> = Vec::new();
        out.push(lo);
        out
    } else {
        let mid: usize = lo + (hi - lo) / 2;
        let a = rank_range(keys, lo, mid);
        let b = rank_range(keys, mid, hi);
        let r = merge_ranks(keys, &a, &b);
        assert forall|i: int| 0 <= i < r@.len() implies lo <= (#[trigger] r@[i]) < hi by {
            if a@.contains(r@[i]) {
                let k = choose|k: int| 0 <= k < a@.len() && a@[k] == r@[i];
                assert(a@[k] < mid);
            } else {
                let k = choose|k: int| 0 <= k < b@.len() && b@[k] == r@[i];
                assert(b@[k] < hi);
            }
        }
        r
    }
}

/// The positions of `keys`, the highest key first and equal keys in their own order.
pub open spec fn ranking(keys: Seq<i64>) -> Seq<usize> {
    choose|r: Seq<usize>| is_ranking(r, keys)
}

/// A ranking leaves no position out.
pub proof fn lemma_ranking_covers(r: Seq<usize>, keys: Seq<i64>, p: int)
    requires
        is_ranking(r, keys),
        0 <= p < keys.len(),
    ensures
        exists|i: int| 0 <= i < r.len() && #[trigger] r[i] == p,
{
    let n = keys.len() as int;
    let ints = r.map_values(|x: usize| x as int);
    assert(ints.no_duplicates()) by {
        assert forall|i: int, j: int| 0 <= i < j < ints.len() implies ints[i] != ints[j] by {
            assert(ranks_before(keys, r[i], r[j]));
        }
    }
    ints.unique_seq_to_set();
    let all = vstd::set_lib::set_int_range(0, n);
    vstd::set_lib::lemma_int_range(0, n);
    assert(ints.to_set().subset_of(all)) by {
        assert forall|x: int| ints.to_set().contains(x) implies all.contains(x) by {
            let i = ints.index_of(x);
            assert(r[i] < keys.len());
        }
    }
    vstd::set_lib::lemma_subset_equality(ints.to_set(), all);
    assert(all.contains(p));
    assert(ints.to_set().contains(p));
    let i = ints.index_of(p);
    assert(r[i] == p);
}

proof fn lemma_ranking_prefix(a: Seq<usize>, b: Seq<usize>, keys: Seq<i64>, n: nat)
    requires
        is_ranking(a, keys),
        is_ranking(b, keys),
        n <= keys.len(),
    ensures
        forall|i: int| 0 <= i < n ==> a[i] == b[i],
    decreases n,
{
    if n > 0 {
        let i = n - 1;
        lemma_ranking_prefix(a, b, keys, i as nat);
        if a[i] != b[i] {
            lemma_ranking_covers(b, keys, a[i] as int);
            lemma_ranking_covers(a, keys, b[i] as int);
            let j = choose|j: int| 0 <= j < b.len() && #[trigger] b[j] == a[i];
            let k = choose|k: int| 0 <= k < a.len() && #[trigger] a[k] == b[i];
            if j < i {
                assert(a[j] == b[j]);
                assert(ranks_before(keys, a[j], a[i]));
            }
            if k < i {
                assert(a[k] == b[k]);
                assert(ranks_before(keys, b[k], b[i]));
            }
            assert(ranks_before(keys, b[i], b[j]));
            assert(ranks_before(keys, a[i], a[k]));
        }
    }
}

/// There is one ranking of given keys.
pub proof fn ranking_is_unique(a: Seq<usize>, b: Seq<usize>, keys: Seq<i64>)
    requires
        is_ranking(a, keys),
        is_ranking(b, keys),
    ensures
        a == b,
{
    lemma_ranking_prefix(a, b, keys, keys.len());
    assert(a =~= b);
}

/// Where the entries whose key is at least `x` end.
proof fn lemma_split(r: Seq<usize>, keys: Seq<i64>, x: i64, k: nat) -> (s: nat)
    requires
        k <= r.len(),
        is_ranking(r, keys),
        forall|i: int| 0 <= i < k ==> keys[#[trigger] r[i] as int] >= x,
    ensures
        s <= r.len(),
        forall|i: int| 0 <= i < s ==> keys[#[trigger] r[i] as int] >= x,
        forall|i: int| s <= i < r.len() ==> keys[#[trigger] r[i] as int] < x,
    decreases r.len() - k,
{
    if k == r.len() {
        k
    } else if keys[r[k as int] as int] < x {
        assert forall|i: int| k <= i < r.len() implies keys[#[trigger] r[i] as int] < x by {
            if k < i {
                assert(ranks_before(keys, r[k as int], r[i]));
            }
        }
        k
    } else {
        lemma_split(r, keys, x, k + 1)
    }
}

/// Keys can be ranked.
pub proof fn lemma_ranking_exists(keys: Seq<i64>)
    requires
        keys.len() <= usize::MAX,
    ensures
        is_ranking(ranking(keys), keys),
    decreases keys.len(),
{
    if keys.len() == 0 {
        assert(is_ranking(Seq::empty(), keys));
    } else {
        let n = keys.len() - 1;
        let front = keys.drop_last();
        lemma_ranking_exists(front);
        let r = ranking(front);
        let s = lemma_split(r, front, keys[n], 0);
        let whole = r.take(s as int).push(n as usize) + r.skip(s as int);
        assert forall|i: int| 0 <= i < whole.len() implies (#[trigger] whole[i]) < keys.len() by {
            if i < s {
                assert(whole[i] == r[i]);
            } else if i > s {
                assert(whole[i] == r[i - 1]);
            }
        }
        assert forall|i: int, j: int| 0 <= i < j < whole.len() implies ranks_before(
            keys,
            #[trigger] whole[i],
            #[trigger] whole[j],
        ) by {
            let a = if i < s {
                i
            } else {
                i - 1
            };
            let b = if j < s {
                j
            } else {
                j - 1
            };
            if i == s {
                assert(whole[j] == r[b]);
                assert(front[r[b] as int] < keys[n]);
            } else if j == s {
                assert(whole[i] == r[a]);
                assert(front[r[a] as int] >= keys[n]);
            } else {
                assert(whole[i] == r[a] && whole[j] == r[b]);
                assert(ranks_before(front, r[a], r[b]));
            }
        }
        assert(is_ranking(whole, keys));
    }
}

/// All positions of `keys`, the highest key first and equal keys in their own order.
pub fn rank_descending(keys: &Vec<i64>) -> (r: Vec<usize>)
    ensures
        is_ranking(r@, keys@),
        r@ == ranking(keys@),
        r@.len() == keys@.len(),
        r@.no_duplicates(),
        forall|i: int| 0 <= i < r@.len() ==> (#[trigger] r@[i]) < keys@.len(),
        forall|i: int, j: int|
            0 <= i < j < r@.len() ==> keys@[#[trigger] r@[i] as int] >= keys@[
                #[trigger] r@[j] as int],
        forall|i: int, j: int|
            0 <= i < j < r@.len() && keys@[#[trigger] r@[i] as int] == keys@[
                #[trigger] r@[j] as int] ==> r@[i] < r@[j],
{
    let r = rank_range(keys, 0, keys.len());
    proof {
        assert(is_ranking(r@, keys@));
        ranking_is_unique(r@, ranking(keys@), keys@);
        rankings_descend(r@, keys@);
    }
    r
}

/// A ranking names every position once, and no key stands behind a smaller one. Equal keys keep
/// their order.
pub proof fn rankings_descend(r: Seq<usize>, keys: Seq<i64>)
    requires
        is_ranking(r, keys),
    ensures
        r.len() == keys.len(),
        r.no_duplicates(),
        forall|i: int| 0 <= i < r.len() ==> (#[trigger] r[i]) < keys.len(),
        forall|p: usize| #[trigger] r.contains(p) <==> p < keys.len(),
        forall|i: int, j: int|
            0 <= i < j < r.len() ==> keys[#[trigger] r[i] as int] >= keys[#[trigger] r[j] as int],
        forall|i: int, j: int|
            0 <= i < j < r.len() && keys[#[trigger] r[i] as int] == keys[#[trigger] r[j] as int]
                ==> r[i] < r[j],
{
    assert forall|i: int, j: int| 0 <= i < r.len() && 0 <= j < r.len() && i != j implies r[i]
        != r[j] by {
        if i < j {
            assert(ranks_before(keys, r[i], r[j]));
        } else {
            assert(ranks_before(keys, r[j], r[i]));
        }
    }
    assert forall|p: usize| #[trigger] r.contains(p) <==> p < keys.len() by {
        if p < keys.len() {
            lemma_ranking_covers(r, keys, p as int);
        }
    }
    assert forall|i: int, j: int| 0 <= i < j < r.len() implies ranks_before(
        keys,
        #[trigger] r[i],
        #[trigger] r[j],
    ) by {}
}

/// The sorted list of some values is increasing, and holds these values and no others.
pub proof fn sorted_lists_hold_the_values(s: Seq<i64>)
    ensures
        forall|i: int, j: int|
            0 <= i < j < sorted_unique(s).len() ==> #[trigger] sorted_unique(s)[i]
                < #[trigger] sorted_unique(s)[j],
        forall|x: i64| #[trigger] sorted_unique(s).contains(x) <==> s.contains(x),
{
    lemma_sorted_unique_exists(s);
}

} // verus!
