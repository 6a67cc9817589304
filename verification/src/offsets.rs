//! Where the embeddings of each chunk start in the whole index.

use vstd::prelude::*;

use crate::json::{
    is_json, json_accepted, json_u64_member, json_with_u64, u64_member, with_u64_member,
};

verus! {

/// Sum of the first `n` counts.
pub open spec fn sum_counts(counts: Seq<usize>, n: nat) -> int
    decreases n,
{
    if n == 0 {
        0
    } else {
        sum_counts(counts, (n - 1) as nat) + counts[n - 1]
    }
}

proof fn lemma_sum_agree(a: Seq<usize>, b: Seq<usize>, n: nat)
    requires
        n <= a.len(),
        n <= b.len(),
        forall|i: int| 0 <= i < n ==> a[i] == b[i],
    ensures
        sum_counts(a, n) == sum_counts(b, n),
    decreases n,
{
    if n > 0 {
        lemma_sum_agree(a, b, (n - 1) as nat);
    }
}

/// Where chunks start. The view holds how many embeddings each chunk has.
pub struct OffsetTable {
    first: usize,
    starts: Vec<usize>,
    counts: Vec<usize>,
    next: usize,
}

/// Why a chunk gets no offset.
#[derive(Clone, Copy, Debug, PartialEq, Eq, Structural)]
pub enum OffsetError {
    /// The metadata is no JSON.
    InvalidJson,
    /// `num_embeddings` is missing or no unsigned number.
    InvalidCount,
    /// The embeddings cannot be numbered.
    TooMany,
}

/// What becomes of a chunk whose metadata is `text` and whose embeddings start at `offset`: the new
/// metadata and the number of embeddings. Metadata that is no object is left alone.
pub open spec fn placed_chunk(text: Seq<u8>, offset: usize) -> Result<
    Option<(Seq<u8>, usize)>,
    OffsetError,
> {
    if !json_accepted(text) {
        Err(OffsetError::InvalidJson)
    } else {
        match json_with_u64(text, "embedding_offset"@, offset as u64) {
            None => Ok(None),
            Some(t) => match json_u64_member(text, "num_embeddings"@) {
                None => Err(OffsetError::InvalidCount),
                Some(c) => if offset + c > usize::MAX {
                    Err(OffsetError::TooMany)
                } else {
                    Ok(Some((t, c as usize)))
                },
            },
        }
    }
}

impl View for OffsetTable {
    type V = Seq<usize>;

    closed spec fn view(&self) -> Seq<usize> {
        self.counts@
    }
}

impl OffsetTable {
    /// Every chunk starts behind the embeddings of the chunks before it.
    pub closed spec fn wf(&self) -> bool {
        &&& self.starts@.len() == self.counts@.len()
        &&& self.next == self.first + sum_counts(self.counts@, self.counts@.len())
        &&& forall|i: int|
            0 <= i < self.starts@.len() ==> #[trigger] self.starts@[i] == self.first + sum_counts(
                self.counts@,
                i as nat,
            )
    }

    /// Where the first chunk starts.
    pub closed spec fn origin(&self) -> usize {
        self.first
    }

    /// Where the next chunk starts.
    pub closed spec fn end(&self) -> usize {
        self.next
    }

    /// Where chunk `i` starts.
    pub closed spec fn start_of(&self, i: int) -> usize {
        self.starts@[i]
    }

    /// The embeddings of a chunk start where those of the chunks before it end.
    pub proof fn starts_are_prefix_sums(&self)
        requires
            self.wf(),
        ensures
            self.end() == self.origin() + sum_counts(self@, self@.len()),
            forall|i: int|
                0 <= i < self@.len() ==> #[trigger] self.start_of(i) == self.origin() + sum_counts(
                    self@,
                    i as nat,
                ),
    {
    }

    /// No chunk yet; the first one starts at `first`.
    pub fn new(first: usize) -> (r: Self)
        ensures
            r.wf(),
            r@ == Seq::<usize>::empty(),
            r.origin() == first,
            r.end() == first,
    {
        OffsetTable { first, starts: Vec::new(), counts: Vec::new(), next: first }
    }

    /// Puts a chunk behind the others. Gives the new text of its metadata, which has the offset in
    /// it, or nothing when the metadata is no object; it is then left out of the table.
    pub fn add_chunk(&mut self, text: &[u8]) -> (r: Result<Option<Vec<u8>>, OffsetError>)
        requires
            old(self).wf(),
        ensures
            final(self).wf(),
            final(self).origin() == old(self).origin(),
            match placed_chunk(text@, old(self).end()) {
                Err(e) => r == Err::<Option<Vec<u8>>, OffsetError>(e) && final(self)@ == old(self)@,
                Ok(None) => r matches Ok(None) && final(self)@ == old(self)@,
                Ok(Some((t, c))) => {
                    &&& r matches Ok(Some(v)) && v@ == t && json_u64_member(
                        v@,
                        "embedding_offset"@,
                    ) == Some(old(self).end() as u64) && json_u64_member(v@, "num_embeddings"@)
                        == Some(c as u64)
                    &&& final(self)@ == old(self)@.push(c)
                },
            },
            r == Err::<Option<Vec<u8>>, OffsetError>(OffsetError::InvalidJson)
                <==> !json_accepted(text@),
            r == Err::<Option<Vec<u8>>, OffsetError>(OffsetError::InvalidCount) ==> json_u64_member(
                text@,
                "num_embeddings"@,
            ) is None,
            r == Err::<Option<Vec<u8>>, OffsetError>(OffsetError::TooMany) ==> (json_u64_member(
                text@,
                "num_embeddings"@,
            ) matches Some(c) && old(self).end() + c > usize::MAX),
            r matches Ok(Some(v)) ==> {
                &&& json_u64_member(text@, "num_embeddings"@) is Some
                &&& final(self)@.len() == old(self)@.len() + 1
                &&& final(self)@.drop_last() == old(self)@
                &&& final(self)@.last() == json_u64_member(text@, "num_embeddings"@)->0
                &&& final(self).start_of(old(self)@.len() as int) == old(self).end()
                &&& final(self).end() == old(self).end() + json_u64_member(
                    text@,
                    "num_embeddings"@,
                )->0
                &&& json_u64_member(v@, "embedding_offset"@) == Some(old(self).end() as u64)
                &&& json_u64_member(v@, "num_embeddings"@) == json_u64_member(
                    text@,
                    "num_embeddings"@,
                )
            },
            !(r matches Ok(Some(_))) ==> final(self)@ == old(self)@ && final(self).end() == old(
                self,
            ).end(),
            forall|i: int|
                0 <= i < old(self)@.len() ==> #[trigger] final(self).start_of(i) == old(
                    self,
                ).start_of(i),
    {
        if !is_json(text) {
            return Err(OffsetError::InvalidJson);
        }
        let offset: usize = self.next;
        match with_u64_member(text, "embedding_offset", offset as u64) {
            None => Ok(None),
            Some(t) => match u64_member(text, "num_embeddings") {
                None => Err(OffsetError::InvalidCount),
                Some(c) => {
                    if c > (usize::MAX - offset) as u64 {
                        return Err(OffsetError::TooMany);
                    }
                    let count: usize = c as usize;
                    let ghost known = self.counts@;
                    self.starts.push(offset);
                    self.counts.push(count);
                    self.next = offset + count;
                    proof {
                        reveal_strlit("embedding_offset");
                        reveal_strlit("num_embeddings");
                        assert("num_embeddings"@.len() != "embedding_offset"@.len());
                        assert forall|i: int| 0 <= i < self.starts@.len() implies #[trigger] self.starts@[i]
                            == self.first + sum_counts(self.counts@, i as nat) by {
                            lemma_sum_agree(known, self.counts@, i as nat);
                        }
                        lemma_sum_agree(known, self.counts@, known.len());
                    }
                    Ok(Some(t))
                },
            },
        }
    }

    /// Number of chunks in the table.
    pub fn len(&self) -> (r: usize)
        requires
            self.wf(),
        ensures
            r == self@.len(),
    {
        self.counts.len()
    }

    /// Where chunk `i` starts.
    pub fn start(&self, i: usize) -> (r: usize)
        requires
            self.wf(),
            i < self@.len(),
        ensures
            r == self.start_of(i as int),
    {
        self.starts[i]
    }

    /// Where the next chunk starts.
    pub fn total(&self) -> (r: usize)
        requires
            self.wf(),
        ensures
            r == self.end(),
    {
        self.next
    }
}

/// `base` with `part` laid over it from `at` on.
pub open spec fn laid_over(base: Seq<i64>, at: int, part: Seq<i64>) -> Seq<i64> {
    Seq::new(
        base.len(),
        |i: int|
            if at <= i < at + part.len() {
                part[i - at]
            } else {
                base[i]
            },
    )
}

/// The codes of the first `n` chunks, each at the place where its chunk starts; zero elsewhere.
pub open spec fn gathered(table: OffsetTable, chunks: Seq<Vec<i64>>, n: nat) -> Seq<i64>
    decreases n,
{
    if n == 0 {
        Seq::new(table.end() as nat, |i: int| 0i64)
    } else {
        laid_over(
            gathered(table, chunks, (n - 1) as nat),
            table.start_of(n - 1) as int,
            chunks[n - 1]@,
        )
    }
}

proof fn lemma_gathered_len(table: OffsetTable, chunks: Seq<Vec<i64>>, n: nat)
    ensures
        gathered(table, chunks, n).len() == table.end(),
    decreases n,
{
    if n > 0 {
        lemma_gathered_len(table, chunks, (n - 1) as nat);
    }
}

/// Every chunk has a start, and its codes end before the last embedding.
pub open spec fn chunks_fit(table: OffsetTable, chunks: Seq<Vec<i64>>) -> bool {
    &&& chunks.len() <= table@.len()
    &&& forall|i: int|
        0 <= i < chunks.len() ==> table.start_of(i) + (#[trigger] chunks[i])@.len() <= table.end()
}

/// Whether every chunk has a start, and its codes end before the last embedding.
pub fn check_chunks(table: &OffsetTable, chunks: &Vec<Vec<i64>>) -> (r: bool)
    requires
        table.wf(),
    ensures
        r == chunks_fit(*table, chunks@),
        r <==> chunks@.len() <= table@.len() && forall|i: int|
            0 <= i < chunks@.len() ==> table.start_of(i) + (#[trigger] chunks@[i])@.len()
                <= table.end(),
{
    if chunks.len() > table.len() {
        return false;
    }
    let total: usize = table.total();
    let mut i: usize = 0;
    while i < chunks.len()
        invariant
            i <= chunks@.len() <= table@.len(),
            table.wf(),
            total == table.end(),
            forall|j: int|
                0 <= j < i ==> table.start_of(j) + (#[trigger] chunks@[j])@.len() <= table.end(),
        decreases chunks@.len() - i,
    {
        let start: usize = table.start(i);
        if start > total || chunks[i].len() > total - start {
            assert(table.start_of(i as int) + chunks@[i as int]@.len() > table.end());
            return false;
        }
        i += 1;
    }
    true
}

/// Brings the codes of all chunks together. The codes of a chunk stand where the chunk starts.
pub fn gather_codes(table: &OffsetTable, chunks: &Vec<Vec<i64>>) -> (r: Vec<i64>)
    requires
        table.wf(),
        chunks_fit(*table, chunks@),
    ensures
        r@ == gathered(*table, chunks@, chunks@.len()),
{
    let total: usize = table.total();
    let mut out: Vec<i64> = Vec::new();
    while out.len() < total
        invariant
            out.len() <= total,
            forall|i: int| 0 <= i < out.len() ==> out[i] == 0,
        decreases total - out.len(),
    {
        out.push(0);
    }
    assert(out@ =~= gathered(*table, chunks@, 0));
    let mut k: usize = 0;
    while k < chunks.len()
        invariant
            k <= chunks.len(),
            table.wf(),
            total == table.end(),
            chunks_fit(*table, chunks@),
            out@ == gathered(*table, chunks@, k as nat),
            out.len() == total,
        decreases chunks.len() - k,
    {
        let at: usize = table.start(k);
        let part = &chunks[k];
        let ghost base = out@;
        let mut i: usize = 0;
        assert(out@ =~= laid_over(base, at as int, part@.take(0)));
        while i < part.len()
            invariant
                i <= part.len(),
                out.len() == total,
                base.len() == total,
                at + part.len() <= total,
                out@ == laid_over(base, at as int, part@.take(i as int)),
            decreases part.len() - i,
        {
            out.set(at + i, part[i]);
            i += 1;
            assert(out@ =~= laid_over(base, at as int, part@.take(i as int)));
        }
        assert(part@.take(i as int) =~= part@);
        k += 1;
    }
    out
}

/// The codes of every chunk.
pub open spec fn chunk_views(chunks: Seq<Vec<i64>>) -> Seq<Seq<i64>> {
    Seq::new(chunks.len(), |i: int| chunks[i]@)
}

proof fn lemma_gathered_prefix(table: OffsetTable, chunks: Seq<Vec<i64>>, n: nat)
    requires
        table.wf(),
        table.origin() == 0,
        chunks.len() == table@.len(),
        forall|i: int| 0 <= i < chunks.len() ==> (#[trigger] chunks[i])@.len() == table@[i],
        n <= chunks.len(),
    ensures
        0 <= sum_counts(table@, n) <= table.end(),
        chunk_views(chunks).take(n as int).flatten().len() == sum_counts(table@, n),
        gathered(table, chunks, n).take(sum_counts(table@, n)) == chunk_views(chunks).take(
            n as int,
        ).flatten(),
    decreases n,
{
    lemma_gathered_len(table, chunks, n);
    lemma_sum_bound(table@, n, table@.len());
    if n == 0 {
        assert(chunk_views(chunks).take(0) =~= Seq::empty());
        assert(gathered(table, chunks, 0).take(0) =~= chunk_views(chunks).take(0).flatten());
    } else {
        let m = (n - 1) as nat;
        lemma_gathered_prefix(table, chunks, m);
        lemma_gathered_len(table, chunks, m);
        let part = chunks[n - 1]@;
        assert(chunk_views(chunks).take(n as int) =~= chunk_views(chunks).take(m as int).push(part));
        chunk_views(chunks).take(m as int).lemma_flatten_push(part);
        assert(table.start_of(m as int) == sum_counts(table@, m));
        let before = gathered(table, chunks, m);
        let after = gathered(table, chunks, n);
        let whole = chunk_views(chunks).take(n as int).flatten();
        assert forall|i: int| 0 <= i < whole.len() implies #[trigger] after[i] == whole[i] by {
            if i < sum_counts(table@, m) {
                assert(before[i] == before.take(sum_counts(table@, m))[i]);
            }
        }
        assert(after.take(sum_counts(table@, n)) =~= whole);
    }
}

proof fn lemma_sum_bound(counts: Seq<usize>, a: nat, b: nat)
    requires
        a <= b <= counts.len(),
    ensures
        0 <= sum_counts(counts, a) <= sum_counts(counts, b),
    decreases b,
{
    if a < b {
        lemma_sum_bound(counts, a, (b - 1) as nat);
    } else if b > 0 {
        lemma_sum_bound(counts, (a - 1) as nat, (b - 1) as nat);
    }
}

/// When every chunk has as many codes as its metadata says, bringing them together puts the codes
/// of the chunks one after another.
pub proof fn gathering_joins_chunks(table: OffsetTable, chunks: Seq<Vec<i64>>)
    requires
        table.wf(),
        table.origin() == 0,
        chunks.len() == table@.len(),
        forall|i: int| 0 <= i < chunks.len() ==> (#[trigger] chunks[i])@.len() == table@[i],
    ensures
        gathered(table, chunks, chunks.len()) == chunk_views(chunks).flatten(),
{
    lemma_gathered_prefix(table, chunks, chunks.len());
    lemma_gathered_len(table, chunks, chunks.len());
    assert(chunk_views(chunks).take(chunks.len() as int) =~= chunk_views(chunks));
    assert(gathered(table, chunks, chunks.len()).take(table.end() as int) =~= gathered(
        table,
        chunks,
        chunks.len(),
    ));
}

/// The sum of the first counts is what adding them up gives.
pub proof fn counts_are_added_up(counts: Seq<usize>, n: nat)
    requires
        n <= counts.len(),
    ensures
        sum_counts(counts, n) == counts.take(n as int).fold_left(
            0int,
            |sum: int, c: usize| sum + c,
        ),
    decreases n,
{
    let front = counts.take(n as int);
    if n > 0 {
        counts_are_added_up(counts, (n - 1) as nat);
        assert(front.drop_last() =~= counts.take(n - 1));
    }
}

proof fn lemma_gathered_at(table: OffsetTable, chunks: Seq<Vec<i64>>, n: nat, p: int)
    requires
        n <= chunks.len(),
        0 <= p < table.end(),
    ensures
        forall|k: int|
            0 <= k < n && table.start_of(k) <= p < table.start_of(k) + (
            #[trigger] chunks[k])@.len() && (forall|j: int|
                k < j < n ==> !(table.start_of(j) <= p < table.start_of(j) + (
                #[trigger] chunks[j])@.len())) ==> gathered(table, chunks, n)[p]
                == chunks[k]@[p - table.start_of(k)],
        (forall|j: int|
            0 <= j < n ==> !(table.start_of(j) <= p < table.start_of(j) + (
            #[trigger] chunks[j])@.len())) ==> gathered(table, chunks, n)[p] == 0,
    decreases n,
{
    if n > 0 {
        let m = (n - 1) as nat;
        lemma_gathered_at(table, chunks, m, p);
        lemma_gathered_len(table, chunks, m);
        let last = chunks[n - 1]@;
        let at = table.start_of(n - 1) as int;
        let before = gathered(table, chunks, m);
        assert(gathered(table, chunks, n)[p] == if at <= p < at + last.len() {
            last[p - at]
        } else {
            before[p]
        });
    }
}

/// Where the codes of chunks are brought together, a place holds the code of the last chunk that
/// reaches it, as far behind the start of the chunk as in the chunk itself, and zero if none does.
pub proof fn gathered_codes_stand_behind_their_starts(
    table: OffsetTable,
    chunks: Seq<Vec<i64>>,
    k: int,
    x: int,
)
    requires
        0 <= k < chunks.len(),
        0 <= x < chunks[k]@.len(),
        table.start_of(k) + x < table.end(),
        forall|j: int|
            k < j < chunks.len() ==> !(table.start_of(j) <= table.start_of(k) + x < table.start_of(
                j,
            ) + (#[trigger] chunks[j])@.len()),
    ensures
        gathered(table, chunks, chunks.len()).len() == table.end(),
        gathered(table, chunks, chunks.len())[table.start_of(k) + x] == chunks[k]@[x],
{
    lemma_gathered_len(table, chunks, chunks.len());
    lemma_gathered_at(table, chunks, chunks.len(), table.start_of(k) + x);
}

/// A place that no chunk reaches holds zero.
pub proof fn places_between_chunks_hold_zero(table: OffsetTable, chunks: Seq<Vec<i64>>, p: int)
    requires
        0 <= p < table.end(),
        forall|j: int|
            0 <= j < chunks.len() ==> !(table.start_of(j) <= p < table.start_of(j) + (
            #[trigger] chunks[j])@.len()),
    ensures
        gathered(table, chunks, chunks.len())[p] == 0,
{
    lemma_gathered_at(table, chunks, chunks.len(), p);
}

} // verus!
