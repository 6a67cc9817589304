//! Cutting documents into chunks, and the rows of a chunk into batches.

use vstd::arithmetic::div_mod::lemma_fundamental_div_mod;
use vstd::prelude::*;

use crate::strided::{are_lengths, lemma_rows_monotonic, rows_before, total_rows};

verus! {

/// `a` divided by `b`, rounded up.
pub open spec fn ceil_div(a: int, b: int) -> int {
    if a % b == 0 {
        a / b
    } else {
        a / b + 1
    }
}

/// Documents in a chunk, but for the last one: the batch size, and no more than one above the
/// number of documents.
pub open spec fn docs_per_chunk(n: int, batch: int) -> int {
    if batch < n + 1 {
        batch
    } else {
        n + 1
    }
}

/// Number of chunks that `n` documents fill. There is none when the batch size is not positive.
pub open spec fn chunks_for(n: int, batch: int) -> int {
    if batch <= 0 || n == 0 {
        0
    } else {
        ceil_div(n, docs_per_chunk(n, batch))
    }
}

/// First document of chunk `i`.
pub open spec fn chunk_start(n: int, batch: int, i: int) -> int {
    i * docs_per_chunk(n, batch)
}

/// First document after chunk `i`.
pub open spec fn chunk_end(n: int, batch: int, i: int) -> int {
    let end = chunk_start(n, batch, i + 1);
    if end < n {
        end
    } else {
        n
    }
}

/// Number of chunks that `n` documents fill.
pub fn chunk_count(n: usize, batch: i64) -> (r: usize)
    requires
        n < usize::MAX,
    ensures
        r == chunks_for(n as int, batch as int),
        batch <= 0 || n == 0 ==> r == 0,
        batch > 0 && n > 0 ==> (r - 1) * batch < n <= r * batch,
{
    if batch <= 0 || n == 0 {
        return 0;
    }
    let size: usize = chunk_size(n, batch);
    let whole: usize = n / size;
    proof {
        chunks_are_as_many_as_needed(n as int, batch as int);
        lemma_fundamental_div_mod(n as int, size as int);
        assert(whole <= n) by (nonlinear_arith)
            requires
                n == size * whole + n % size,
                size >= 1,
                0 <= n % size,
        ;
    }
    if n % size == 0 {
        whole
    } else {
        whole + 1
    }
}

/// Documents in a chunk, but for the last one.
pub fn chunk_size(n: usize, batch: i64) -> (r: usize)
    requires
        n < usize::MAX,
        0 < batch,
    ensures
        r == docs_per_chunk(n as int, batch as int),
        0 < r,
        r <= batch,
        r <= n + 1,
        r == batch || r == n + 1,
{
    if (batch as u64) < (n as u64) + 1 {
        batch as usize
    } else {
        n + 1
    }
}

/// There are as many chunks of `batch` documents as all documents take, and no more. Chunk `i`
/// starts `i` batches behind the first document, and holds a whole batch, or what is left.
pub proof fn chunks_are_as_many_as_needed(n: int, batch: int)
    requires
        0 < n,
        0 < batch,
    ensures
        (chunks_for(n, batch) - 1) * batch < n <= chunks_for(n, batch) * batch,
        forall|i: int|
            0 <= i < chunks_for(n, batch) ==> #[trigger] chunk_start(n, batch, i) == i * batch,
        forall|i: int|
            0 <= i < chunks_for(n, batch) ==> (#[trigger] chunk_end(n, batch, i)) - i * batch
                <= batch,
        forall|i: int|
            0 <= i < chunks_for(n, batch) - 1 ==> (#[trigger] chunk_end(n, batch, i)) - i * batch
                == batch,
        chunk_end(n, batch, chunks_for(n, batch) - 1) == n,
{
    let size = docs_per_chunk(n, batch);
    let count = chunks_for(n, batch);
    lemma_fundamental_div_mod(n, size);
    let q = n / size;
    let m = n % size;
    assert((count - 1) * size < n <= count * size && (size == n + 1 ==> count == 1) && count >= 1)
        by (nonlinear_arith)
        requires
            n == size * q + m,
            0 <= m < size,
            0 < n,
            0 < size <= n + 1,
            count == (if m == 0 {
                q
            } else {
                q + 1
            }),
    ;
    assert forall|i: int| 0 <= i < count implies #[trigger] chunk_start(n, batch, i) == i * batch by {
        assert(0 * size == 0 && 0 * batch == 0);
    }
    assert forall|i: int| 0 <= i < count implies (#[trigger] chunk_end(n, batch, i)) - i * batch
        <= batch by {
        assert((i + 1) * size == i * size + size) by (nonlinear_arith);
        assert(0 * size == 0 && 0 * batch == 0);
    }
    assert forall|i: int| 0 <= i < count - 1 implies (#[trigger] chunk_end(n, batch, i)) - i * batch
        == batch by {
        assert((i + 1) * size == i * size + size) by (nonlinear_arith);
        assert((i + 1) * size <= (count - 1) * size) by (nonlinear_arith)
            requires
                i + 1 <= count - 1,
                0 < size,
        ;
    }
    assert((count - 1 + 1) * size == count * size);
}

/// Every chunk starts where the one before it ends and holds a document, and the last chunk ends
/// with the last document.
pub proof fn chunks_join_up(n: int, batch: int, i: int)
    requires
        0 <= n,
        0 < batch,
        0 <= i < chunks_for(n, batch),
    ensures
        0 <= chunk_start(n, batch, i) < chunk_end(n, batch, i) <= n,
        chunk_start(n, batch, 0) == 0,
        i + 1 < chunks_for(n, batch) ==> chunk_end(n, batch, i) == chunk_start(n, batch, i + 1),
        i + 1 == chunks_for(n, batch) ==> chunk_end(n, batch, i) == n,
{
    let size = docs_per_chunk(n, batch);
    let count = chunks_for(n, batch);
    lemma_fundamental_div_mod(n, size);
    let q = n / size;
    let m = n % size;
    assert(0 * size == 0);
    assert(0 <= i * size < n && (i + 1 < count ==> (i + 1) * size < n) && (i + 1 == count ==> (i + 1)
        * size >= n) && i * size < (i + 1) * size) by (nonlinear_arith)
        requires
            n == size * q + m,
            0 <= m < size,
            0 <= i < count,
            count == (if m == 0 {
                q
            } else {
                q + 1
            }),
    ;
}

/// Every document is in one chunk and in no other.
pub proof fn each_document_in_one_chunk(n: int, batch: int, d: int, i: int)
    requires
        0 <= d < n,
        0 < batch,
        0 <= i < chunks_for(n, batch),
    ensures
        0 <= d / docs_per_chunk(n, batch) < chunks_for(n, batch),
        chunk_start(n, batch, i) <= d < chunk_end(n, batch, i) <==> i == d / docs_per_chunk(
            n,
            batch,
        ),
{
    let size = docs_per_chunk(n, batch);
    let count = chunks_for(n, batch);
    lemma_fundamental_div_mod(n, size);
    lemma_fundamental_div_mod(d, size);
    let q = n / size;
    let m = n % size;
    let c = d / size;
    let e = d % size;
    assert(0 <= c < count) by (nonlinear_arith)
        requires
            n == size * q + m,
            0 <= m < size,
            d == size * c + e,
            0 <= e < size,
            0 <= d < n,
            count == (if m == 0 {
                q
            } else {
                q + 1
            }),
    ;
    if i * size <= d < (i + 1) * size {
        assert(i == c) by (nonlinear_arith)
            requires
                i * size <= d < (i + 1) * size,
                d == size * c + e,
                0 <= e < size,
        ;
    }
    assert(c * size <= d < (c + 1) * size) by (nonlinear_arith)
        requires
            d == size * c + e,
            0 <= e < size,
    ;
}

/// The documents of chunk `i`: the first one, and the first one after it.
pub fn chunk_range(n: usize, batch: i64, i: usize) -> (r: (usize, usize))
    requires
        n < usize::MAX,
        0 < batch,
        i < chunks_for(n as int, batch as int),
    ensures
        r.0 == chunk_start(n as int, batch as int, i as int),
        r.1 == chunk_end(n as int, batch as int, i as int),
        r.0 < r.1 <= n,
        r.0 == i * batch,
        r.1 - r.0 <= batch,
        r.1 - r.0 == batch || r.1 == n,
{
    let size: usize = chunk_size(n, batch);
    proof {
        if n > 0 {
            chunks_are_as_many_as_needed(n as int, batch as int);
            assert(chunk_start(n as int, batch as int, i as int) == i * batch);
            assert(chunk_end(n as int, batch as int, i as int) - i * batch <= batch);
            if i + 1 < chunks_for(n as int, batch as int) {
                assert(chunk_end(n as int, batch as int, i as int) - i * batch == batch);
            }
        }
        chunks_join_up(n as int, batch as int, i as int);
        assert((i + 1) * size == i * size + size) by (nonlinear_arith);
    }
    let start: usize = i * size;
    let end: usize = if size < n - start {
        start + size
    } else {
        n
    };
    (start, end)
}

/// Rows of the documents from `from` up to, not including, `to`.
pub open spec fn rows_between(lens: Seq<i64>, from: int, to: int) -> int {
    rows_before(lens, to as nat) - rows_before(lens, from as nat)
}

/// `r` cuts the documents into batches. A batch takes documents one by one until it has at least
/// `batch` rows, or no document is left.
pub open spec fn is_batching(r: Seq<(usize, usize)>, lens: Seq<i64>, batch: int) -> bool {
    &&& r.len() == 0 <==> lens.len() == 0
    &&& r.len() > 0 ==> r[0].0 == 0 && r.last().1 == lens.len()
    &&& forall|k: int|
        0 <= k < r.len() ==> {
            &&& #[trigger] r[k].0 < r[k].1 <= lens.len()
            &&& forall|e: int|
                r[k].0 < e < r[k].1 ==> #[trigger] rows_between(lens, r[k].0 as int, e) < batch
        }
    &&& forall|k: int|
        0 <= k < r.len() - 1 ==> {
            &&& (#[trigger] r[k]).1 == r[k + 1].0
            &&& rows_between(lens, r[k].0 as int, r[k].1 as int) >= batch
        }
}

/// There is one way to cut documents into batches.
pub proof fn batching_is_unique(
    a: Seq<(usize, usize)>,
    b: Seq<(usize, usize)>,
    lens: Seq<i64>,
    batch: int,
)
    requires
        is_batching(a, lens, batch),
        is_batching(b, lens, batch),
    ensures
        a == b,
{
    lemma_batching_prefix(a, b, lens, batch, if a.len() < b.len() {
        a.len()
    } else {
        b.len()
    });
    if a.len() < b.len() && a.len() > 0 {
        let k = a.len() - 1;
        assert(a[k] == b[k]);
        assert(b[k].1 == b[k + 1].0);
        assert(b[k + 1].0 < b[k + 1].1);
    }
    if b.len() < a.len() && b.len() > 0 {
        let k = b.len() - 1;
        assert(a[k] == b[k]);
        assert(a[k].1 == a[k + 1].0);
        assert(a[k + 1].0 < a[k + 1].1);
    }
    assert(a =~= b);
}

proof fn lemma_batching_prefix(
    a: Seq<(usize, usize)>,
    b: Seq<(usize, usize)>,
    lens: Seq<i64>,
    batch: int,
    n: nat,
)
    requires
        is_batching(a, lens, batch),
        is_batching(b, lens, batch),
        n <= a.len(),
        n <= b.len(),
    ensures
        forall|k: int| 0 <= k < n ==> a[k] == b[k],
    decreases n,
{
    if n > 0 {
        let k = n - 1;
        lemma_batching_prefix(a, b, lens, batch, k as nat);
        if k > 0 {
            assert(a[k - 1] == b[k - 1]);
            assert(a[k - 1].1 == a[k].0);
            assert(b[k - 1].1 == b[k].0);
        }
        assert(a[k].0 < a[k].1 <= lens.len());
        assert(b[k].0 < b[k].1 <= lens.len());
        if a[k].1 < b[k].1 {
            assert(k < a.len() - 1);
            assert(a[k].1 == a[k + 1].0);
            assert(rows_between(lens, b[k].0 as int, a[k].1 as int) < batch);
        }
        if b[k].1 < a[k].1 {
            assert(k < b.len() - 1);
            assert(b[k].1 == b[k + 1].0);
            assert(rows_between(lens, a[k].0 as int, b[k].1 as int) < batch);
        }
    }
}

/// Cuts the documents of a chunk into batches of at least `batch` rows, but for the last one. A
/// batch is given by its first document and the first document after it.
pub fn row_batches(lens: &Vec<i64>, batch: i64) -> (r: Vec<(usize, usize)>)
    requires
        are_lengths(lens@),
        total_rows(lens@) <= i64::MAX,
    ensures
        is_batching(r@, lens@, batch as int),
        r@.len() == 0 <==> lens@.len() == 0,
        r@.len() > 0 ==> r@[0].0 == 0 && r@.last().1 == lens@.len(),
        forall|k: int| 0 <= k < r@.len() ==> (#[trigger] r@[k]).0 < r@[k].1 <= lens@.len(),
        forall|k: int| 0 <= k < r@.len() - 1 ==> (#[trigger] r@[k]).1 == r@[k + 1].0,
        forall|k: int|
            0 <= k < r@.len() - 1 ==> rows_before(lens@, (#[trigger] r@[k]).1 as nat)
                - rows_before(lens@, r@[k].0 as nat) >= batch,
        forall|k: int|
            0 <= k < r@.len() && r@[k].1 - r@[k].0 > 1 ==> rows_before(
                lens@,
                ((#[trigger] r@[k]).1 - 1) as nat,
            ) - rows_before(lens@, r@[k].0 as nat) < batch,
{
    let mut out: Vec<(usize, usize)> = Vec::new();
    let mut start: usize = 0;
    let mut rows: i64 = 0;
    let mut i: usize = 0;
    while i < lens.len()
        invariant
            start <= i <= lens.len(),
            are_lengths(lens@),
            total_rows(lens@) <= i64::MAX,
            rows == rows_between(lens@, start as int, i as int),
            out.len() == 0 ==> start == 0,
            out.len() > 0 ==> out[0].0 == 0 && out@.last().1 == start,
            forall|e: int| start < e <= i ==> #[trigger] rows_between(lens@, start as int, e) < batch,
            forall|k: int|
                0 <= k < out.len() ==> {
                    &&& #[trigger] out[k].0 < out[k].1 <= i
                    &&& rows_between(lens@, out[k].0 as int, out[k].1 as int) >= batch
                    &&& forall|e: int|
                        out[k].0 < e < out[k].1 ==> #[trigger] rows_between(
                            lens@,
                            out[k].0 as int,
                            e,
                        ) < batch
                },
            forall|k: int| 0 <= k < out.len() - 1 ==> (#[trigger] out[k]).1 == out[k + 1].0,
        decreases lens.len() - i,
    {
        proof {
            lemma_rows_monotonic(lens@, start as nat, i as nat);
            lemma_rows_monotonic(lens@, i as nat + 1, lens@.len());
            assert(rows_before(lens@, i as nat + 1) == rows_before(lens@, i as nat) + lens[i as int]);
        }
        rows = rows + lens[i];
        i += 1;
        if rows >= batch {
            out.push((start, i));
            start = i;
            rows = 0;
        }
    }
    if start < lens.len() {
        out.push((start, lens.len()));
    }
    proof {
        batches_fill_up(out@, lens@, batch as int);
    }
    out
}

/// Batches join up and cover all documents. Every batch but the last has at least `batch` rows, and
/// none has that many without its last document.
pub proof fn batches_fill_up(r: Seq<(usize, usize)>, lens: Seq<i64>, batch: int)
    requires
        is_batching(r, lens, batch),
    ensures
        r.len() == 0 <==> lens.len() == 0,
        r.len() > 0 ==> r[0].0 == 0 && r.last().1 == lens.len(),
        forall|k: int| 0 <= k < r.len() ==> (#[trigger] r[k]).0 < r[k].1 <= lens.len(),
        forall|k: int| 0 <= k < r.len() - 1 ==> (#[trigger] r[k]).1 == r[k + 1].0,
        forall|k: int|
            0 <= k < r.len() - 1 ==> rows_before(lens, (#[trigger] r[k]).1 as nat) - rows_before(
                lens,
                r[k].0 as nat,
            ) >= batch,
        forall|k: int|
            0 <= k < r.len() && r[k].1 - r[k].0 > 1 ==> rows_before(
                lens,
                ((#[trigger] r[k]).1 - 1) as nat,
            ) - rows_before(lens, r[k].0 as nat) < batch,
{
    assert forall|k: int| 0 <= k < r.len() && r[k].1 - r[k].0 > 1 implies rows_before(
        lens,
        ((#[trigger] r[k]).1 - 1) as nat,
    ) - rows_before(lens, r[k].0 as nat) < batch by {
        assert(rows_between(lens, r[k].0 as int, r[k].1 - 1) < batch);
    }
    assert forall|k: int| 0 <= k < r.len() - 1 implies rows_before(
        lens,
        (#[trigger] r[k]).1 as nat,
    ) - rows_before(lens, r[k].0 as nat) >= batch by {
        assert(rows_between(lens, r[k].0 as int, r[k].1 as int) >= batch);
    }
}

/// The ranges of chunks join up: the first chunk starts with the first document, every other one
/// where the one before it ends, and the last one ends with the last document. Each but the last
/// holds a whole batch.
pub proof fn ranges_join_up(
    n: usize,
    batch: i64,
    count: usize,
    i: usize,
    this: (usize, usize),
    next: (usize, usize),
)
    requires
        0 < n,
        0 < batch,
        i < count,
        call_ensures(chunk_count, (n, batch), count),
        call_ensures(chunk_range, (n, batch, i), this),
        i + 1 < count ==> call_ensures(chunk_range, (n, batch, (i + 1) as usize), next),
    ensures
        i == 0 ==> this.0 == 0,
        i + 1 < count ==> this.1 == next.0 && this.1 - this.0 == batch,
        i + 1 == count ==> this.1 == n,
        this.0 < this.1,
        this.1 - this.0 <= batch,
{
    let size = batch as int;
    assert((i + 1) * size == i * size + size) by (nonlinear_arith);
    assert(0 * size == 0);
    if i + 1 < count {
        assert((i + 1) * size <= (count - 1) * size) by (nonlinear_arith)
            requires
                i + 1 <= count - 1,
                0 < size,
        ;
    } else {
        assert((i + 1) * size == count * size);
    }
}

} // verus!
