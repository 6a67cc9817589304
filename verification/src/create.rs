//! Building an index: what is trained, encoded and written, and in what pieces.

use vstd::arithmetic::power2::{lemma_pow2_pos, lemma_pow2_unfold, pow2};
use vstd::prelude::*;

use crate::chunks::{chunk_count, chunks_for};
use crate::files::{codes_file, doclens_file, metadata_file, residuals_file};
use crate::ivf::{
    build_ivf, cell_count, cell_lists, doc_codes, is_listable, ivf_lists, list_lengths,
    listed_iff_coded,
};
use crate::json::{json_array, json_i64_list, write_doclens};
use crate::offsets::{chunk_views, gathered, gathering_joins_chunks, OffsetTable};
use crate::packing::{pack_buckets, packed_buckets, packing_joins_up};
use crate::sampling::{
    heldout_rows, heldout_size, heldout_slices, is_heldout, is_sample, numbers_below,
    sample_len, sample_passages, sampled, sampled_lengths, seeded_order, RowSlice,
};
use crate::strided::{
    append, are_lengths, lemma_rows_monotonic, rows_are_added_up, rows_before, total_rows,
};
use crate::text::decimal;
use crate::update::IndexMetadata;

verus! {

/// Holds metadata for a chunk of the index: the number of passages and the total number of
/// embeddings.
#[derive(Clone, Copy, Debug, PartialEq, Eq, Structural)]
pub struct Metadata {
    pub num_documents: usize,
    pub num_embeddings: usize,
}

/// `k` is the largest exponent for which two to the power of `k` is at most sixteen times the
/// square root of `total`.
pub open spec fn is_partition_exponent(total: int, k: nat) -> bool {
    pow2(k) * pow2(k) <= 256 * total < pow2(k + 1) * pow2(k + 1)
}

/// Number of cells for `total` embeddings: the largest power of two that is at most sixteen times
/// the square root of `total`, and zero for no embeddings.
pub open spec fn partitions_for(total: int) -> int {
    if total <= 0 {
        0
    } else {
        pow2(choose|k: nat| is_partition_exponent(total, k)) as int
    }
}

proof fn lemma_pow2_increasing(a: nat, b: nat)
    requires
        a <= b,
    ensures
        0 < pow2(a) <= pow2(b),
    decreases b,
{
    lemma_pow2_pos(a);
    if a < b {
        lemma_pow2_increasing(a, (b - 1) as nat);
        lemma_pow2_unfold(b);
    }
}

proof fn lemma_partition_exponent_unique(total: int, a: nat, b: nat)
    requires
        is_partition_exponent(total, a),
        is_partition_exponent(total, b),
    ensures
        a == b,
{
    if a < b {
        lemma_pow2_increasing(a + 1, b);
        let (x, y) = (pow2(a + 1) as int, pow2(b) as int);
        assert(x * x <= y * y) by (nonlinear_arith)
            requires
                0 < x <= y,
        ;
    }
    if b < a {
        lemma_pow2_increasing(b + 1, a);
        let (x, y) = (pow2(b + 1) as int, pow2(a) as int);
        assert(x * x <= y * y) by (nonlinear_arith)
            requires
                0 < x <= y,
        ;
    }
}

/// The number of cells is the power of two whose square is at most 256 times the number of
/// embeddings, while four times its square is more.
pub proof fn partitions_are(total: int, k: nat)
    requires
        0 < total,
        is_partition_exponent(total, k),
    ensures
        partitions_for(total) == pow2(k),
{
    let c = choose|j: nat| is_partition_exponent(total, j);
    lemma_partition_exponent_unique(total, k, c);
}

/// The number of cells is a power of two; its square is at most 256 times the number of embeddings,
/// and four times its square is more.
pub proof fn cells_follow_the_root_of_the_embeddings(total: int, k: nat)
    requires
        0 < total,
    ensures
        pow2(k) * pow2(k) <= 256 * total < 4 * (pow2(k) * pow2(k)) <==> partitions_for(total)
            == pow2(k),
        exists|j: nat| partitions_for(total) == #[trigger] pow2(j),
        partitions_for(total) * partitions_for(total) <= 256 * total,
        256 * total < 4 * (partitions_for(total) * partitions_for(total)),
{
    lemma_partition_exponent_exists(total, 0);
    let c = choose|j: nat| is_partition_exponent(total, j);
    lemma_pow2_unfold(c + 1);
    lemma_pow2_unfold(k + 1);
    let (x, y) = (pow2(c) as int, pow2(k) as int);
    assert((2 * x) * (2 * x) == 4 * (x * x) && (2 * y) * (2 * y) == 4 * (y * y))
        by (nonlinear_arith);
    if pow2(k) * pow2(k) <= 256 * total < 4 * (pow2(k) * pow2(k)) {
        assert(is_partition_exponent(total, k));
        lemma_partition_exponent_unique(total, k, c);
    }
    assert(partitions_for(total) == pow2(c));
}

proof fn lemma_partition_exponent_exists(total: int, k: nat)
    requires
        0 < total,
        pow2(k) * pow2(k) <= 256 * total || k == 0,
    ensures
        exists|j: nat| is_partition_exponent(total, j),
    decreases 256 * total + 1 - pow2(k),
{
    lemma_pow2_pos(k);
    if k == 0 {
        assert(pow2(0) == 1) by {
            vstd::arithmetic::power2::lemma2_to64();
        }
    }
    lemma_pow2_unfold(k + 1);
    let (x, y) = (pow2(k) as int, pow2(k + 1) as int);
    if y * y <= 256 * total {
        assert(x < y && y <= y * y) by (nonlinear_arith)
            requires
                x > 0,
                y == 2 * x,
        ;
        lemma_partition_exponent_exists(total, k + 1);
    } else {
        assert(k == 0 ==> x * x == 1) by (nonlinear_arith)
            requires
                k == 0 ==> x == 1,
        ;
        assert(pow2(k) * pow2(k) <= 256 * total < pow2(k + 1) * pow2(k + 1));
        assert(is_partition_exponent(total, k));
    }
}

/// Number of cells for `total` embeddings.
pub fn partition_count(total: i64) -> (r: i64)
    requires
        0 <= total,
    ensures
        r == partitions_for(total as int),
        0 <= r,
        total == 0 ==> r == 0,
        total > 0 ==> r * r <= 256 * total < 4 * (r * r),
        total > 0 ==> exists|k: nat| r == #[trigger] pow2(k),
{
    proof {
        if total > 0 {
            cells_follow_the_root_of_the_embeddings(total as int, 0);
        }
    }
    if total == 0 {
        return 0;
    }
    let square: u128 = 256 * (total as u128);
    let mut cells: u128 = 1;
    let ghost mut k: nat = 0;
    proof {
        lemma_pow2_pos(0);
        assert(pow2(0) == 1) by {
            vstd::arithmetic::power2::lemma2_to64();
        }
    }
    while cells * cells <= square / 4
        invariant
            square == 256 * total,
            0 < total,
            cells == pow2(k),
            1 <= cells < 0x10_0000_0000,
            cells * cells <= square,
        decreases 0x10_0000_0000 - cells,
    {
        assert(2 * cells < 0x10_0000_0000 && (2 * cells) * (2 * cells) == 4 * (cells * cells))
            by (nonlinear_arith)
            requires
                4 * (cells * cells) <= square,
                square <= 256 * 0x7fff_ffff_ffff_ffff,
                cells >= 1,
        ;
        cells = 2 * cells;
        proof {
            lemma_pow2_unfold(k + 1);
            k = k + 1;
        }
    }
    proof {
        lemma_pow2_unfold(k + 1);
        assert((2 * cells) * (2 * cells) == 4 * (cells * cells)) by (nonlinear_arith);
        partitions_are(total as int, k);
    }
    cells as i64
}

/// What is settled before a codec is trained.
pub struct IndexPlan {
    /// Number of chunks.
    pub num_chunks: usize,
    /// The documents of the sample, in the order in which they were drawn.
    pub sample: Vec<u32>,
    /// How many rows of the sample are held out.
    pub heldout_rows: i64,
    /// The rows that are held out.
    pub heldout: Vec<RowSlice>,
    /// Number of cells.
    pub num_partitions: i64,
}

/// Why no index is made.
#[derive(Clone, Copy, Debug, PartialEq, Eq, Structural)]
pub enum CreateError {
    /// No rows are left to train the codec from.
    NoHeldoutSamples,
}

/// The plan for documents of these lengths and this sample.
pub open spec fn is_plan(p: IndexPlan, lens: Seq<i64>, batch: int, sample: Seq<u32>) -> bool {
    let held = heldout_rows(total_rows(sampled(lens, sample)));
    &&& p.num_chunks == chunks_for(lens.len() as int, batch)
    &&& p.sample@ == sample
    &&& p.heldout_rows == held
    &&& is_heldout(p.heldout@, sampled(lens, sample), held)
    &&& p.num_partitions == partitions_for(total_rows(lens))
}

/// The sum of lengths, if none is negative and the sum is an `i64`.
pub fn total_length(lens: &Vec<i64>) -> (r: Option<i64>)
    ensures
        r is Some <==> are_lengths(lens@) && total_rows(lens@) <= i64::MAX,
        r matches Some(n) ==> n == total_rows(lens@),
        r matches Some(n) ==> n == lens@.fold_left(0int, |sum: int, l: i64| sum + l),
        r is Some <==> (forall|i: int| 0 <= i < lens@.len() ==> 0 <= #[trigger] lens@[i])
            && lens@.fold_left(0int, |sum: int, l: i64| sum + l) <= i64::MAX,
{
    proof {
        rows_are_added_up(lens@, lens@.len());
    }
    let mut sum: i64 = 0;
    let mut i: usize = 0;
    while i < lens.len()
        invariant
            i <= lens@.len(),
            forall|j: int| 0 <= j < i ==> 0 <= #[trigger] lens@[j],
            0 <= sum,
            sum == rows_before(lens@, i as nat),
            total_rows(lens@) == lens@.fold_left(0int, |sum: int, l: i64| sum + l),
        decreases lens@.len() - i,
    {
        let len: i64 = lens[i];
        if len < 0 {
            return None;
        }
        proof {
            if are_lengths(lens@) {
                lemma_rows_monotonic(lens@, i as nat + 1, lens@.len());
            }
        }
        if len > i64::MAX - sum {
            return None;
        }
        sum = sum + len;
        i += 1;
    }
    Some(sum)
}

/// Plans an index whose codec is trained from the given sample.
pub fn plan_from_sample(doclens: &Vec<i64>, batch_size: i64, sample: Vec<u32>) -> (r: IndexPlan)
    requires
        are_lengths(doclens@),
        total_rows(doclens@) <= i64::MAX,
        doclens@.len() < usize::MAX,
        sample@.no_duplicates(),
        forall|i: int| 0 <= i < sample.len() ==> #[trigger] sample[i] < doclens.len(),
    ensures
        is_plan(r, doclens@, batch_size as int, sample@),
        r.sample@ == sample@,
        batch_size <= 0 || doclens@.len() == 0 ==> r.num_chunks == 0,
        batch_size > 0 && doclens@.len() > 0 ==> (r.num_chunks - 1) * batch_size < doclens@.len()
            <= r.num_chunks * batch_size,
        ({
            let rows = total_rows(sampled(doclens@, sample@));
            &&& 0 <= r.heldout_rows <= 50_000
            &&& 20 * r.heldout_rows <= rows + 10
            &&& r.heldout_rows < 50_000 ==> rows - 10 < 20 * r.heldout_rows
        }),
        r.heldout@.fold_left(0int, |sum: int, s: RowSlice| sum + s.rows) == r.heldout_rows,
        total_rows(doclens@) == 0 ==> r.num_partitions == 0,
        total_rows(doclens@) > 0 ==> r.num_partitions * r.num_partitions <= 256 * total_rows(
            doclens@,
        ) < 4 * (r.num_partitions * r.num_partitions),
{
    let lens = sampled_lengths(doclens, &sample);
    proof {
        lemma_rows_monotonic(lens@, 0, lens@.len());
        lemma_rows_monotonic(doclens@, 0, doclens@.len());
    }
    let held: i64 = heldout_size(total_length(&lens).unwrap());
    let heldout = heldout_slices(&lens, held);
    let num_partitions: i64 = partition_count(total_length(doclens).unwrap());
    IndexPlan {
        num_chunks: chunk_count(doclens.len(), batch_size),
        sample,
        heldout_rows: held,
        heldout,
        num_partitions,
    }
}

/// Plans an index for documents of these lengths. With a seed the plan is always the same.
pub fn plan_index(doclens: &Vec<i64>, batch_size: i64, seed: Option<u64>) -> (r: IndexPlan)
    requires
        are_lengths(doclens@),
        total_rows(doclens@) <= i64::MAX,
        doclens@.len() < usize::MAX,
    ensures
        is_sample(r.sample@, doclens@.len() as usize),
        is_plan(r, doclens@, batch_size as int, r.sample@),
        batch_size <= 0 || doclens@.len() == 0 ==> r.num_chunks == 0,
        batch_size > 0 && doclens@.len() > 0 ==> (r.num_chunks - 1) * batch_size < doclens@.len()
            <= r.num_chunks * batch_size,
        ({
            let rows = total_rows(sampled(doclens@, r.sample@));
            &&& 0 <= r.heldout_rows <= 50_000
            &&& 20 * r.heldout_rows <= rows + 10
            &&& r.heldout_rows < 50_000 ==> rows - 10 < 20 * r.heldout_rows
        }),
        r.heldout@.fold_left(0int, |sum: int, s: RowSlice| sum + s.rows) == r.heldout_rows,
        total_rows(doclens@) > 0 ==> r.num_partitions * r.num_partitions <= 256 * total_rows(
            doclens@,
        ) < 4 * (r.num_partitions * r.num_partitions),
        seed matches Some(s) ==> r.sample@ == seeded_order(
            s,
            numbers_below(doclens@.len() as usize as u32),
        ).take(sample_len(doclens@.len() as usize) as int),
{
    let n: usize = doclens.len();
    let sample = sample_passages(n, seed);
    proof {
        assert((n as u32) <= n) by (bit_vector);
        assert forall|i: int| 0 <= i < sample.len() implies #[trigger] sample[i] < doclens.len() by {
            assert(sample[i] < (n as u32));
        }
    }
    plan_from_sample(doclens, batch_size, sample)
}

impl IndexPlan {
    /// Whether a codec can be trained. An error when no rows were held out.
    pub fn check_training(&self) -> (r: Result<(), CreateError>)
        ensures
            r == if self.heldout_rows == 0 {
                Err::<(), CreateError>(CreateError::NoHeldoutSamples)
            } else {
                Ok(())
            },
    {
        if self.heldout_rows == 0 {
            Err(CreateError::NoHeldoutSamples)
        } else {
            Ok(())
        }
    }
}

/// The rows of one batch: the cell of every row, and a bucket number for every dimension of it.
pub struct EncodedBatch {
    pub codes: Vec<i64>,
    pub buckets: Vec<u32>,
}

/// A chunk as it is stored.
pub struct StoredChunk {
    pub codes: Vec<i64>,
    pub residuals: Vec<u8>,
    pub doclens: Vec<i64>,
}

/// The files of a chunk.
pub struct ChunkFiles {
    pub codes_name: String,
    pub codes: Vec<i64>,
    pub residuals_name: String,
    pub residuals: Vec<u8>,
    pub doclens_name: String,
    pub doclens: Vec<u8>,
    pub metadata_name: String,
    pub metadata: Metadata,
}

/// The codes of every batch.
pub open spec fn batch_codes(batches: Seq<EncodedBatch>) -> Seq<Seq<i64>> {
    Seq::new(batches.len(), |i: int| batches[i].codes@)
}

/// The bucket numbers of every batch.
pub open spec fn batch_buckets(batches: Seq<EncodedBatch>) -> Seq<Seq<u32>> {
    Seq::new(batches.len(), |i: int| batches[i].buckets@)
}

/// Bytes that the residual of one row takes.
pub open spec fn row_bytes(dim: int, nbits: int) -> int {
    dim / 8 * nbits
}

/// Every row of every batch has a bucket number for each of `dim` dimensions.
pub open spec fn are_encoded(batches: Seq<EncodedBatch>, dim: int, nbits: int) -> bool {
    forall|i: int|
        0 <= i < batches.len() ==> {
            &&& (#[trigger] batches[i]).buckets@.len() == batches[i].codes@.len() * dim
            &&& batches[i].buckets@.len() * nbits <= usize::MAX
        }
}

/// The codes that a chunk held before, if anything.
pub open spec fn stored_codes(old_chunk: Option<StoredChunk>) -> Seq<i64> {
    match old_chunk {
        Some(c) => c.codes@,
        None => Seq::empty(),
    }
}

/// The residuals that a chunk held before, if anything.
pub open spec fn stored_residuals(old_chunk: Option<StoredChunk>) -> Seq<u8> {
    match old_chunk {
        Some(c) => c.residuals@,
        None => Seq::empty(),
    }
}

/// The lengths of the documents that a chunk held before, if anything.
pub open spec fn stored_doclens(old_chunk: Option<StoredChunk>) -> Seq<i64> {
    match old_chunk {
        Some(c) => c.doclens@,
        None => Seq::empty(),
    }
}

proof fn lemma_row_bytes(rows: nat, dim: int, nbits: int)
    requires
        0 <= dim,
        dim % 8 == 0,
        0 <= nbits,
    ensures
        (rows * dim * nbits) % 8 == 0,
        (rows * dim * nbits) / 8 == rows * row_bytes(dim, nbits),
{
    let q = dim / 8;
    let w = rows * (q * nbits);
    assert(rows * dim * nbits == 8 * w) by (nonlinear_arith)
        requires
            dim == 8 * q,
            w == rows * (q * nbits),
    ;
}

proof fn lemma_batch_bytes(b: EncodedBatch, dim: int, nbits: int)
    requires
        0 <= dim,
        dim % 8 == 0,
        0 <= nbits,
        b.buckets@.len() == b.codes@.len() * dim,
    ensures
        (b.buckets@.len() * nbits) % 8 == 0,
        packed_buckets(b.buckets@, nbits as nat).len() == b.codes@.len() * row_bytes(dim, nbits),
{
    lemma_row_bytes(b.codes@.len(), dim, nbits);
}

/// Makes the files of chunk `chunk` from its batches, behind what the chunk held before. `doclens`
/// are the lengths of the new documents.
pub fn chunk_files(
    chunk: usize,
    old_chunk: Option<StoredChunk>,
    doclens: &Vec<i64>,
    batches: &Vec<EncodedBatch>,
    dim: usize,
    nbits: i64,
) -> (r: ChunkFiles)
    requires
        1 <= nbits <= 31,
        dim % 8 == 0,
        are_encoded(batches@, dim as int, nbits as int),
    ensures
        r.codes_name@ == decimal(chunk as nat) + ".codes.npy"@,
        r.codes@ == stored_codes(old_chunk) + batch_codes(batches@).flatten(),
        r.residuals_name@ == decimal(chunk as nat) + ".residuals.npy"@,
        r.residuals@ == stored_residuals(old_chunk) + packed_buckets(
            batch_buckets(batches@).flatten(),
            nbits as nat,
        ),
        r.residuals@.len() - stored_residuals(old_chunk).len() == batch_codes(
            batches@,
        ).flatten().len() * row_bytes(dim as int, nbits as int),
        r.doclens_name@ == "doclens."@ + decimal(chunk as nat) + ".json"@,
        r.doclens@ == json_array(stored_doclens(old_chunk) + doclens@),
        json_i64_list(r.doclens@) == Some(stored_doclens(old_chunk) + doclens@),
        r.metadata_name@ == decimal(chunk as nat) + ".metadata.json"@,
        r.metadata.num_documents == stored_doclens(old_chunk).len() + doclens@.len(),
        r.metadata.num_embeddings == r.codes@.len(),
        old_chunk matches Some(c) ==> {
            &&& r.codes@ == c.codes@ + Seq::new(batches@.len(), |i: int| batches@[i].codes@).flatten()
            &&& r.residuals@ == c.residuals@ + packed_buckets(
                Seq::new(batches@.len(), |i: int| batches@[i].buckets@).flatten(),
                nbits as nat,
            )
            &&& json_i64_list(r.doclens@) == Some(c.doclens@ + doclens@)
            &&& r.metadata.num_documents == c.doclens@.len() + doclens@.len()
            &&& 8 * (r.residuals@.len() - c.residuals@.len()) == (r.codes@.len() - c.codes@.len())
                * dim * nbits
        },
        old_chunk is None ==> {
            &&& r.codes@ == Seq::new(batches@.len(), |i: int| batches@[i].codes@).flatten()
            &&& r.residuals@ == packed_buckets(
                Seq::new(batches@.len(), |i: int| batches@[i].buckets@).flatten(),
                nbits as nat,
            )
            &&& json_i64_list(r.doclens@) == Some(doclens@)
            &&& r.metadata.num_documents == doclens@.len()
            &&& 8 * r.residuals@.len() == r.codes@.len() * dim * nbits
        },
{
    let ghost before = old_chunk;
    let (mut codes, mut residuals, mut lens) = match old_chunk {
        Some(c) => (c.codes, c.residuals, c.doclens),
        None => (Vec::new(), Vec::new(), Vec::new()),
    };
    let ghost first_codes = codes@;
    let ghost first_residuals = residuals@;
    let ghost bytes = row_bytes(dim as int, nbits as int);
    let mut i: usize = 0;
    proof {
        assert(batch_codes(batches@).take(0) =~= Seq::empty());
        assert(batch_buckets(batches@).take(0) =~= Seq::empty());
        assert(packed_buckets(Seq::empty(), nbits as nat) =~= Seq::<u8>::empty()) by {
            assert(0 * (nbits as nat) == 0) by (nonlinear_arith);
        }
        assert(0 * (nbits as nat) == 0 && 0 * bytes == 0) by (nonlinear_arith);
        assert(codes@ =~= first_codes + batch_codes(batches@).take(0).flatten());
        assert(residuals@ =~= first_residuals + packed_buckets(
            batch_buckets(batches@).take(0).flatten(),
            nbits as nat,
        ));
    }
    while i < batches.len()
        invariant
            i <= batches.len(),
            1 <= nbits <= 31,
            dim % 8 == 0,
            are_encoded(batches@, dim as int, nbits as int),
            bytes == row_bytes(dim as int, nbits as int),
            codes@ == first_codes + batch_codes(batches@).take(i as int).flatten(),
            residuals@ == first_residuals + packed_buckets(
                batch_buckets(batches@).take(i as int).flatten(),
                nbits as nat,
            ),
            (batch_buckets(batches@).take(i as int).flatten().len() * (nbits as nat)) % 8 == 0,
            packed_buckets(batch_buckets(batches@).take(i as int).flatten(), nbits as nat).len()
                == batch_codes(batches@).take(i as int).flatten().len() * bytes,
        decreases batches.len() - i,
    {
        let ghost known = batch_buckets(batches@).take(i as int).flatten();
        let ghost known_codes = batch_codes(batches@).take(i as int).flatten();
        let ghost here = batches[i as int].buckets@;
        let ghost here_codes = batches[i as int].codes@;
        proof {
            lemma_batch_bytes(batches[i as int], dim as int, nbits as int);
        }
        append(&mut codes, &batches[i].codes);
        let packed = pack_buckets(&batches[i].buckets, nbits);
        append(&mut residuals, &packed);
        proof {
            let next = i as int + 1;
            assert(batch_codes(batches@).take(next) =~= batch_codes(batches@).take(i as int).push(
                here_codes,
            ));
            batch_codes(batches@).take(i as int).lemma_flatten_push(here_codes);
            assert(batch_buckets(batches@).take(next) =~= batch_buckets(batches@).take(
                i as int,
            ).push(here));
            batch_buckets(batches@).take(i as int).lemma_flatten_push(here);
            packing_joins_up(known, here, nbits as nat);
            let (a, b, n) = (known.len(), here.len(), nbits as nat);
            assert((a + b) * n == a * n + b * n) by (nonlinear_arith);
            let (c, d) = (known_codes.len() as int, here_codes.len() as int);
            assert((c + d) * bytes == c * bytes + d * bytes) by (nonlinear_arith);
            assert(codes@ =~= first_codes + batch_codes(batches@).take(next).flatten());
            assert(residuals@ =~= first_residuals + packed_buckets(
                batch_buckets(batches@).take(next).flatten(),
                n,
            ));
        }
        i += 1;
    }
    proof {
        assert(batch_codes(batches@).take(i as int) =~= batch_codes(batches@));
        assert(batch_buckets(batches@).take(i as int) =~= batch_buckets(batches@));
        assert(batch_codes(batches@) =~= Seq::new(batches@.len(), |k: int| batches@[k].codes@));
        assert(batch_buckets(batches@) =~= Seq::new(batches@.len(), |k: int| batches@[k].buckets@));
        assert(Seq::<i64>::empty() + batch_codes(batches@).flatten() =~= batch_codes(
            batches@,
        ).flatten());
        let packed = packed_buckets(batch_buckets(batches@).flatten(), nbits as nat);
        assert(Seq::<u8>::empty() + packed =~= packed);
        assert(Seq::<i64>::empty() + doclens@ =~= doclens@);
        let rows = batch_codes(batches@).flatten().len() as int;
        let eighth = dim as int / 8;
        assert(8 * (rows * (eighth * nbits)) == rows * dim * nbits) by (nonlinear_arith)
            requires
                dim == 8 * eighth,
        ;
    }
    append(&mut lens, doclens);
    let metadata = Metadata { num_documents: lens.len(), num_embeddings: codes.len() };
    ChunkFiles {
        codes_name: codes_file(chunk),
        codes,
        residuals_name: residuals_file(chunk),
        residuals,
        doclens_name: doclens_file(chunk),
        doclens: write_doclens(&lens),
        metadata_name: metadata_file(chunk),
        metadata,
    }
}

/// What is written last.
pub struct FinishedIndex {
    /// The inverted file: the lists back to back, and their lengths. An index can be kept without
    /// it.
    pub ivf: Option<(Vec<i64>, Vec<i64>)>,
    /// The metadata of the index.
    pub metadata: IndexMetadata,
}

/// Finishes an index of `num_chunks` chunks. `codes` are the codes of all tokens, and `doclens` the
/// lengths of all documents.
pub fn finish_index(
    num_chunks: usize,
    num_partitions: i64,
    num_documents: usize,
    num_embeddings: usize,
    codes: &Vec<i64>,
    doclens: &Vec<i64>,
    compress_only: bool,
) -> (r: FinishedIndex)
    requires
        num_embeddings <= i64::MAX,
        num_documents <= i64::MAX,
        compress_only || is_listable(codes@, doclens@, num_partitions as int),
    ensures
        r.metadata == (IndexMetadata {
            num_chunks,
            num_documents: num_documents as i64,
            num_partitions,
            num_embeddings: num_embeddings as i64,
            compress_only,
        }),
        r.ivf is None <==> compress_only,
        r.ivf matches Some((lists, lengths)) ==> {
            let want = ivf_lists(
                codes@,
                doclens@,
                cell_count(codes@, num_partitions as int, codes@.len()),
            );
            &&& lists@ == want.flatten()
            &&& lengths@ == list_lengths(want)
            &&& codes@.len() == total_rows(doclens@) ==> want == cell_lists(
                codes@,
                doclens@,
                0,
                cell_count(codes@, num_partitions as int, codes@.len()),
            )
        },
{
    let metadata = IndexMetadata {
        num_chunks,
        num_documents: num_documents as i64,
        num_partitions,
        num_embeddings: num_embeddings as i64,
        compress_only,
    };
    let ivf = if compress_only {
        None
    } else {
        Some(build_ivf(codes, doclens, num_partitions))
    };
    FinishedIndex { ivf, metadata }
}

/// An index that is built from the codes of its chunks lists a passage in a cell when, and only
/// when, its document has a token with that code.
pub proof fn index_lists_its_tokens(
    table: OffsetTable,
    chunks: Seq<Vec<i64>>,
    doclens: Seq<i64>,
    cells: int,
    c: i64,
    p: i64,
)
    requires
        table.wf(),
        table.origin() == 0,
        chunks.len() == table@.len(),
        forall|i: int| 0 <= i < chunks.len() ==> (#[trigger] chunks[i])@.len() == table@[i],
        are_lengths(doclens),
        doclens.len() <= i64::MAX,
        total_rows(doclens) == table.end(),
        0 <= c < cells,
    ensures
        cell_lists(gathered(table, chunks, chunks.len()), doclens, 0, cells)[c as int].contains(p)
            <==> 0 <= p < doclens.len() && doc_codes(
            chunk_views(chunks).flatten(),
            doclens,
            p as int,
        ).contains(c),
{
    gathering_joins_chunks(table, chunks);
    listed_iff_coded(chunk_views(chunks).flatten(), doclens, 0, c, doclens.len());
}

/// A codec is trained unless no row was held out.
pub proof fn training_needs_rows(plan: &IndexPlan, r: Result<(), CreateError>)
    requires
        call_ensures(IndexPlan::check_training, (plan,), r),
    ensures
        r is Ok <==> plan.heldout_rows != 0,
        r matches Err(e) ==> e == CreateError::NoHeldoutSamples,
{
}

/// The metadata of a finished index say what it was finished with, and it has an inverted file
/// unless it is kept without one.
pub proof fn finished_indices_are_described(
    num_chunks: usize,
    num_partitions: i64,
    num_documents: usize,
    num_embeddings: usize,
    codes: &Vec<i64>,
    doclens: &Vec<i64>,
    compress_only: bool,
    r: FinishedIndex,
)
    requires
        call_ensures(
            finish_index,
            (
                num_chunks,
                num_partitions,
                num_documents,
                num_embeddings,
                codes,
                doclens,
                compress_only,
            ),
            r,
        ),
        num_embeddings <= i64::MAX,
        num_documents <= i64::MAX,
    ensures
        r.metadata.num_chunks == num_chunks,
        r.metadata.num_partitions == num_partitions,
        r.metadata.num_documents == num_documents,
        r.metadata.num_embeddings == num_embeddings,
        r.metadata.compress_only == compress_only,
        r.ivf is Some <==> !compress_only,
{
}

/// A chunk keeps what it held, and the new rows stand behind it: the codes of the batches in order,
/// the documents behind those before, and the metadata count both.
pub proof fn chunks_grow_behind_what_they_held(
    chunk: usize,
    held: StoredChunk,
    doclens: &Vec<i64>,
    batches: &Vec<EncodedBatch>,
    dim: usize,
    nbits: i64,
    grown: ChunkFiles,
    fresh: ChunkFiles,
)
    requires
        call_ensures(chunk_files, (chunk, Some(held), doclens, batches, dim, nbits), grown),
        call_ensures(chunk_files, (chunk, None::<StoredChunk>, doclens, batches, dim, nbits), fresh),
    ensures
        grown.codes@ == held.codes@ + fresh.codes@,
        grown.residuals@ == held.residuals@ + fresh.residuals@,
        json_i64_list(grown.doclens@) == Some(held.doclens@ + doclens@),
        json_i64_list(fresh.doclens@) == Some(doclens@),
        grown.metadata.num_documents == held.doclens@.len() + doclens@.len(),
        grown.metadata.num_embeddings == grown.codes@.len(),
        fresh.metadata.num_documents == doclens@.len(),
        fresh.metadata.num_embeddings == fresh.codes@.len(),
        fresh.codes@ == Seq::new(batches@.len(), |i: int| batches@[i].codes@).flatten(),
        8 * fresh.residuals@.len() == fresh.codes@.len() * dim * nbits,
{
}

/// The number of cells is the power of two whose square is at most 256 times the number of embeddings
/// while four times its square is more, and none for no embeddings.
pub proof fn cells_are_counted_by_the_root(total: i64, r: i64)
    requires
        call_ensures(partition_count, (total,), r),
        0 <= total,
    ensures
        total == 0 ==> r == 0,
        total > 0 ==> r * r <= 256 * total < 4 * (r * r),
        total > 0 ==> exists|k: nat| r == #[trigger] pow2(k),
{
}

} // verus!
