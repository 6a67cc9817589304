//! The codec that reads stored residuals, by tables instead of bit operations.

use vstd::arithmetic::power2::pow2;
use vstd::prelude::*;

use crate::centroids::{index_for, CentroidError, CentroidIndex, TensorValue};
use crate::config::CentroidIndexConfig;
use crate::packing::{
    bucket_index, bucket_table, fills_byte, groups_that_fill_a_byte, keys_per_byte, lemma_fill,
    pack_buckets, reversal_table, reversed_byte, unpack_reads_what_pack_wrote, unpacked_buckets,
    unpacked_numbers_hold_the_bits,
};

verus! {

/// The tables of a codec for residuals of `nbits` bits, and the index over its centroids.
#[derive(Clone, Debug)]
pub struct ResidualCodec {
    /// Bits of each bucket number.
    pub nbits: i64,
    /// Search-time index over the centroids.
    pub centroids_index: CentroidIndex,
    /// Whether the codec can encode: it has the boundaries of the buckets.
    pub has_bucket_cutoffs: bool,
    /// Whether the codec can decode: it has the value of every bucket.
    pub has_bucket_weights: bool,
    /// The numbers below `nbits`.
    pub bit_helper: Vec<i8>,
    /// For each byte, the byte with every group of bits reversed.
    pub byte_reversed_bits_map: Vec<u8>,
    /// For each byte, its bucket numbers.
    pub bucket_weight_indices_lookup: Option<Vec<i64>>,
}

/// `t` is the reversal table for groups of `n` bits.
pub open spec fn is_reversal_table(t: Seq<u8>, n: nat) -> bool {
    &&& t.len() == 256
    &&& forall|b: int| 0 <= b < 256 ==> #[trigger] t[b] == reversed_byte(b as nat, n)
}

/// `t` is the unpacking table for bucket numbers of `n` bits.
pub open spec fn is_bucket_table(t: Seq<i64>, n: nat) -> bool {
    &&& t.len() == 256 * keys_per_byte(n)
    &&& forall|b: int, j: int|
        0 <= b < 256 && 0 <= j < keys_per_byte(n) ==> #[trigger] t[b * keys_per_byte(n) + j]
            == bucket_index(b as nat, n, j as nat)
}

impl ResidualCodec {
    /// The tables are those for `nbits` bits, and a codec that can decode has both.
    pub open spec fn wf(&self) -> bool {
        &&& 1 <= self.nbits <= 31
        &&& self.bit_helper@ == Seq::new(self.nbits as nat, |i: int| i as i8)
        &&& is_reversal_table(self.byte_reversed_bits_map@, self.nbits as nat)
        &&& self.bucket_weight_indices_lookup is Some <==> self.has_bucket_weights
        &&& self.bucket_weight_indices_lookup matches Some(t) ==> is_bucket_table(
            t@,
            self.nbits as nat,
        )
    }

    /// Makes a codec and its tables. The unpacking table is made only for a codec that has the
    /// value of every bucket.
    pub fn load(
        nbits: i64,
        centroids: &TensorValue,
        has_bucket_cutoffs: bool,
        has_bucket_weights: bool,
        config: CentroidIndexConfig,
        graph_available: bool,
    ) -> (r: Result<Self, CentroidError>)
        requires
            1 <= nbits <= 31,
            has_bucket_weights ==> nbits <= 30,
        ensures
            match index_for(config, *centroids, graph_available) {
                Err(e) => r == Err::<ResidualCodec, CentroidError>(e),
                Ok(index) => r matches Ok(c) && {
                    &&& c.wf()
                    &&& c.nbits == nbits
                    &&& c.centroids_index == index
                    &&& c.has_bucket_cutoffs == has_bucket_cutoffs
                    &&& c.has_bucket_weights == has_bucket_weights
                    &&& c.bit_helper@.len() == nbits
                    &&& forall|i: int| 0 <= i < nbits ==> #[trigger] c.bit_helper@[i] == i
                    &&& c.byte_reversed_bits_map@.len() == 256
                    &&& forall|b: int|
                        0 <= b < 256 ==> #[trigger] c.byte_reversed_bits_map@[b] == reversed_byte(
                            b as nat,
                            nbits as nat,
                        )
                    &&& c.bucket_weight_indices_lookup is Some <==> has_bucket_weights
                    &&& c.bucket_weight_indices_lookup matches Some(t) ==> t@.len() == 256 * (8nat
                        / (nbits as nat)) && forall|b: int, j: int|
                        0 <= b < 256 && 0 <= j < 8nat / (nbits as nat) ==> t@[#[trigger] (b * (8nat
                            / (nbits as nat)) + j)] == bucket_index(b as nat, nbits as nat, j as nat)
                },
            },
    {
        let mut bit_helper: Vec<i8> = Vec::new();
        let mut i: i8 = 0;
        while (i as i64) < nbits
            invariant
                0 <= i <= nbits <= 31,
                bit_helper@ == Seq::new(i as nat, |k: int| k as i8),
            decreases nbits - i,
        {
            bit_helper.push(i);
            i += 1;
            assert(bit_helper@ =~= Seq::new(i as nat, |k: int| k as i8));
        }
        let byte_reversed_bits_map = reversal_table(nbits);
        let bucket_weight_indices_lookup = if has_bucket_weights {
            Some(bucket_table(nbits))
        } else {
            None
        };
        match CentroidIndex::build(config, centroids, graph_available) {
            Err(e) => Err(e),
            Ok(centroids_index) => Ok(
                ResidualCodec {
                    nbits,
                    centroids_index,
                    has_bucket_cutoffs,
                    has_bucket_weights,
                    bit_helper,
                    byte_reversed_bits_map,
                    bucket_weight_indices_lookup,
                },
            ),
        }
    }
}

proof fn lemma_unpacked(packed: Seq<u8>, n: nat)
    requires
        fills_byte(n),
    ensures
        forall|i: int, j: int, t: int|
            0 <= i < packed.len() && 0 <= j && (j + 1) * n <= 8 && 0 <= t < n ==> (unpacked_buckets(
                packed,
                n,
            )[#[trigger] (i * (8nat / n) + j)] as nat / #[trigger] pow2(t as nat)) % 2 == (
            packed[i] as nat / pow2((7 - (j * n + t)) as nat)) % 2,
        forall|x: int|
            0 <= x < unpacked_buckets(packed, n).len() ==> 0 <= #[trigger] unpacked_buckets(
                packed,
                n,
            )[x] < pow2(n),
{
    let all = unpacked_buckets(packed, n);
    let k = keys_per_byte(n);
    lemma_fill(n);
    assert forall|i: int, j: int, t: int|
        0 <= i < packed.len() && 0 <= j && (j + 1) * n <= 8 && 0 <= t < n implies (all[
    #[trigger] (i * (8nat / n) + j)] as nat / #[trigger] pow2(t as nat)) % 2 == (
    packed[i] as nat / pow2((7 - (j * n + t)) as nat)) % 2 by {
        unpacked_numbers_hold_the_bits(packed, n, i, j as nat, t as nat);
    }
    assert forall|x: int| 0 <= x < all.len() implies 0 <= #[trigger] all[x] < pow2(n) by {
        vstd::arithmetic::div_mod::lemma_fundamental_div_mod(x, k as int);
        let (i, j) = (x / k as int, x % k as int);
        assert(0 <= i < packed.len() && 0 <= j < k && x == i * k + j && (j + 1) * n <= 8)
            by (nonlinear_arith)
            requires
                x == k * i + j,
                0 <= j < k,
                0 <= x < packed.len() * k,
                k * n == 8,
        ;
        unpacked_numbers_hold_the_bits(packed, n, i, j as nat, 0);
    }
}

/// Unpacks stored residuals: the bucket number of every dimension of every embedding. The residuals
/// of `num_embeddings` embeddings of dimension `embedding_dimension` are stored one after another.
pub fn decompress_residuals(
    codec: &ResidualCodec,
    packed_residuals: &Vec<u8>,
    num_embeddings: usize,
    embedding_dimension: usize,
) -> (r: Vec<i64>)
    requires
        codec.wf(),
        codec.has_bucket_weights,
        fills_byte(codec.nbits as nat),
        (embedding_dimension * codec.nbits) % 8 == 0,
        packed_residuals@.len() == num_embeddings * ((embedding_dimension * codec.nbits) / 8),
    ensures
        r@ == unpacked_buckets(packed_residuals@, codec.nbits as nat),
        r@.len() == num_embeddings * embedding_dimension,
        forall|i: int, j: int, t: int|
            0 <= i < packed_residuals@.len() && 0 <= j && (j + 1) * codec.nbits <= 8 && 0 <= t
                < codec.nbits ==> (r@[#[trigger] (i * (8nat / (codec.nbits as nat)) + j)] as nat
                / #[trigger] pow2(t as nat)) % 2 == (packed_residuals@[i] as nat / pow2(
                (7 - (j * codec.nbits + t)) as nat,
            )) % 2,
        forall|x: int| 0 <= x < r@.len() ==> 0 <= #[trigger] r@[x] < pow2(codec.nbits as nat),
{
    proof {
        lemma_unpacked(packed_residuals@, codec.nbits as nat);
    }
    let k: usize = 8 / (codec.nbits as usize);
    let ghost n = codec.nbits as nat;
    proof {
        lemma_fill(n);
        let bytes = (embedding_dimension * codec.nbits) / 8;
        assert(bytes * k == embedding_dimension) by (nonlinear_arith)
            requires
                8 * bytes == embedding_dimension * n,
                k * n == 8,
                n > 0,
        ;
        assert(packed_residuals@.len() * k == num_embeddings * embedding_dimension)
            by (nonlinear_arith)
            requires
                packed_residuals@.len() == num_embeddings * bytes,
                bytes * k == embedding_dimension,
        ;
    }
    let mut out: Vec<i64> = Vec::new();
    match &codec.bucket_weight_indices_lookup {
        None => {},
        Some(table) => {
            let mut i: usize = 0;
            let ghost want = unpacked_buckets(packed_residuals@, n);
            assert(0 * k == 0);
            while i < packed_residuals.len()
                invariant
                    i <= packed_residuals@.len(),
                    1 <= k <= 8,
                    k == keys_per_byte(n),
                    is_reversal_table(codec.byte_reversed_bits_map@, n),
                    is_bucket_table(table@, n),
                    want == unpacked_buckets(packed_residuals@, n),
                    out@.len() == i * k,
                    out@ == want.take(i * k),
                decreases packed_residuals@.len() - i,
            {
                let b: u8 = packed_residuals[i];
                assert(0 <= b as int && (b as int) < 256);
                let rev: u8 = codec.byte_reversed_bits_map[b as usize];
                let ghost total = packed_residuals@.len() * k;
                let mut j: usize = 0;
                while j < k
                    invariant
                        j <= k,
                        1 <= k <= 8,
                        k == keys_per_byte(n),
                        i < packed_residuals@.len(),
                        total == packed_residuals@.len() * k,
                        want == unpacked_buckets(packed_residuals@, n),
                        is_bucket_table(table@, n),
                        rev == reversed_byte(packed_residuals@[i as int] as nat, n),
                        out@.len() == i * k + j,
                        out@ == want.take(i * k + j),
                    decreases k - j,
                {
                    assert(rev as int * k + j < 256 * k && 0 <= rev as int * k) by (nonlinear_arith)
                        requires
                            0 <= rev < 256,
                            0 <= j < k,
                    ;
                    assert(i * k + j < total && 0 <= i * k) by (nonlinear_arith)
                        requires
                            i < packed_residuals@.len(),
                            j < k,
                            total == packed_residuals@.len() * k,
                    ;
                    assert(table@[rev as int * keys_per_byte(n) + j] == bucket_index(
                        rev as nat,
                        n,
                        j as nat,
                    ));
                    proof {
                        vstd::arithmetic::div_mod::lemma_fundamental_div_mod_converse(
                            i * k + j,
                            k as int,
                            i as int,
                            j as int,
                        );
                    }
                    out.push(table[(rev as usize) * k + j]);
                    j += 1;
                    assert(out@ =~= want.take(i * k + j));
                }
                i += 1;
                assert(i * k == (i - 1) * k + k) by (nonlinear_arith)
                    requires
                        i >= 1,
                ;
            }
            assert(out@ =~= want);
        },
    }
    out
}

/// Bucket numbers are read back as they were stored, for any width of which several fill a byte.
pub proof fn stored_buckets_are_read_back(
    codec: &ResidualCodec,
    buckets: &Vec<u32>,
    packed: &Vec<u8>,
    num_embeddings: usize,
    embedding_dimension: usize,
    r: Vec<i64>,
    i: int,
)
    requires
        call_ensures(pack_buckets, (buckets, codec.nbits), *packed),
        call_ensures(
            decompress_residuals,
            (codec, packed, num_embeddings, embedding_dimension),
            r,
        ),
        codec.nbits == 1 || codec.nbits == 2 || codec.nbits == 4 || codec.nbits == 8,
        (buckets@.len() * codec.nbits) % 8 == 0,
        forall|x: int|
            0 <= x < buckets@.len() ==> #[trigger] buckets@[x] < pow2(codec.nbits as nat),
        0 <= i < buckets@.len(),
    ensures
        r@.len() == buckets@.len(),
        r@[i] == buckets@[i],
{
    let n = codec.nbits as nat;
    groups_that_fill_a_byte(n);
    let k = keys_per_byte(n);
    let len = buckets@.len() as int;
    vstd::arithmetic::div_mod::lemma_fundamental_div_mod(len, k as int);
    let q = len / k as int;
    let left = len % k as int;
    let eighth = (len * n) / 8;
    assert(left == 0) by (nonlinear_arith)
        requires
            len == k * q + left,
            0 <= left < k,
            k * n == 8,
            len * n == 8 * eighth,
            n > 0,
    ;
    unpack_reads_what_pack_wrote(buckets@, n);
}

} // verus!
