//! Growing an index by new documents: where they go, and what becomes of the whole.

use vstd::prelude::*;

use crate::chunks::{chunks_are_as_many_as_needed, chunks_for};
use crate::files::metadata_file;
use crate::ivf::{cell_lists, cells_list_their_documents, listed_iff_coded};
use crate::json::{
    bool_member, i64_member, is_json, json_accepted, json_bool_member, json_i64_member,
    json_u64_member, u64_member,
};
use crate::merge::{list_views, merge_ivf, merged_lengths, merged_lists, partition_pids};
use crate::strided::{
    are_lengths, lemma_rows_monotonic, rows_are_added_up, rows_before, total_rows, StridedTensor,
};
use crate::text::decimal;

verus! {

/// The batch size for processing chunks of documents.
pub const DEFAULT_PROC_CHUNK_SIZE: i64 = 25_000;

/// A chunk with fewer documents than this takes new ones.
pub const APPEND_BELOW: u64 = 2000;

/// Bytes that the scores of one batch may take on a graphics device.
pub const SCORE_BYTES: i64 = 4_294_967_296;

/// What the metadata of an index say.
#[derive(Clone, Copy, Debug, PartialEq, Eq, Structural)]
pub struct IndexMetadata {
    pub num_chunks: usize,
    pub num_documents: i64,
    pub num_partitions: i64,
    pub num_embeddings: i64,
    pub compress_only: bool,
}

/// Why an index cannot be grown.
#[derive(Clone, Copy, Debug, PartialEq, Eq, Structural)]
pub enum UpdateError {
    /// The metadata of the index are no JSON.
    InvalidMetadata,
    /// `num_chunks` is missing from the metadata.
    MissingNumChunks,
    /// `num_partitions` is missing from the metadata.
    MissingNumPartitions,
    /// The codec has no bucket cutoffs.
    MissingBucketCutoffs,
    /// The metadata of the last chunk are no JSON.
    InvalidChunkMetadata,
    /// The last chunk has more embeddings than the index.
    CountsDisagree,
    /// The inverted file is missing though the index should have one.
    MissingIvf,
}

/// What the metadata of an index say; `listed` is the number of documents in the index itself.
pub open spec fn metadata_of(text: Seq<u8>, listed: i64) -> Result<IndexMetadata, UpdateError> {
    if !json_accepted(text) {
        Err(UpdateError::InvalidMetadata)
    } else if json_u64_member(text, "num_chunks"@) is None {
        Err(UpdateError::MissingNumChunks)
    } else if json_i64_member(text, "num_partitions"@) is None {
        Err(UpdateError::MissingNumPartitions)
    } else {
        Ok(
            IndexMetadata {
                num_chunks: json_u64_member(text, "num_chunks"@)->0 as usize,
                num_documents: match json_i64_member(text, "num_documents"@) {
                    Some(n) => n,
                    None => listed,
                },
                num_partitions: json_i64_member(text, "num_partitions"@)->0,
                num_embeddings: match json_i64_member(text, "num_embeddings"@) {
                    Some(n) => n,
                    None => 0,
                },
                compress_only: json_bool_member(text, "compress_only"@) == Some(true),
            },
        )
    }
}

/// Reads the metadata of an index. Where they do not give the number of documents, it is the number
/// of documents in the index itself, `listed`.
fn read_metadata(text: &[u8], listed: i64) -> (r: Result<IndexMetadata, UpdateError>)
    ensures
        r == metadata_of(text@, listed),
{
    if !is_json(text) {
        return Err(UpdateError::InvalidMetadata);
    }
    let num_chunks: usize = match u64_member(text, "num_chunks") {
        Some(n) => n as usize,
        None => {
            return Err(UpdateError::MissingNumChunks);
        },
    };
    let num_documents: i64 = match i64_member(text, "num_documents") {
        Some(n) => n,
        None => listed,
    };
    let num_partitions: i64 = match i64_member(text, "num_partitions") {
        Some(n) => n,
        None => {
            return Err(UpdateError::MissingNumPartitions);
        },
    };
    let num_embeddings: i64 = match i64_member(text, "num_embeddings") {
        Some(n) => n,
        None => 0,
    };
    let compress_only: bool = match bool_member(text, "compress_only") {
        Some(b) => b,
        None => false,
    };
    Ok(IndexMetadata { num_chunks, num_documents, num_partitions, num_embeddings, compress_only })
}

/// How an index is laid out.
#[derive(Clone, Copy, Debug, PartialEq, Eq, Structural)]
pub struct IndexLayout {
    /// Bits per dimension of a residual.
    pub nbits: i64,
    pub num_chunks: usize,
}

/// The layout that the metadata of an index give, if they give both of its parts.
pub open spec fn layout_of(text: Seq<u8>) -> Option<IndexLayout> {
    match (json_i64_member(text, "nbits"@), json_u64_member(text, "num_chunks"@)) {
        (Some(nbits), Some(n)) => Some(IndexLayout { nbits, num_chunks: n as usize }),
        _ => None,
    }
}

/// Reads from the metadata of an index how it is laid out.
pub fn read_layout(text: &[u8]) -> (r: Option<IndexLayout>)
    ensures
        r == layout_of(text@),
        r is Some <==> json_i64_member(text@, "nbits"@) is Some && json_u64_member(
            text@,
            "num_chunks"@,
        ) is Some,
        r matches Some(l) ==> json_i64_member(text@, "nbits"@) == Some(l.nbits) && l.num_chunks
            == json_u64_member(text@, "num_chunks"@)->0 as usize,
{
    match (i64_member(text, "nbits"), u64_member(text, "num_chunks")) {
        (Some(nbits), Some(n)) => Some(IndexLayout { nbits, num_chunks: n as usize }),
        _ => None,
    }
}

/// Begins an update: reads the metadata of the index, and sees that the codec, which must have
/// bucket cutoffs, can encode new documents.
pub fn begin_update(text: &[u8], listed: i64, has_cutoffs: bool) -> (r: Result<
    IndexMetadata,
    UpdateError,
>)
    ensures
        r == if metadata_of(text@, listed) is Ok && !has_cutoffs {
            Err::<IndexMetadata, UpdateError>(UpdateError::MissingBucketCutoffs)
        } else {
            metadata_of(text@, listed)
        },
        r is Ok <==> json_accepted(text@) && json_u64_member(text@, "num_chunks"@) is Some
            && json_i64_member(text@, "num_partitions"@) is Some && has_cutoffs,
        r matches Ok(m) ==> {
            &&& m.num_chunks == json_u64_member(text@, "num_chunks"@)->0 as usize
            &&& json_i64_member(text@, "num_partitions"@) == Some(m.num_partitions)
            &&& json_i64_member(text@, "num_documents"@) is Some ==> json_i64_member(
                text@,
                "num_documents"@,
            ) == Some(m.num_documents)
            &&& json_i64_member(text@, "num_documents"@) is None ==> m.num_documents == listed
            &&& json_i64_member(text@, "num_embeddings"@) is Some ==> json_i64_member(
                text@,
                "num_embeddings"@,
            ) == Some(m.num_embeddings)
            &&& json_i64_member(text@, "num_embeddings"@) is None ==> m.num_embeddings == 0
            &&& m.compress_only <==> json_bool_member(text@, "compress_only"@) == Some(true)
        },
        r == Err::<IndexMetadata, UpdateError>(UpdateError::InvalidMetadata) <==> !json_accepted(
            text@,
        ),
        r == Err::<IndexMetadata, UpdateError>(UpdateError::MissingNumChunks) <==> json_accepted(
            text@,
        ) && json_u64_member(text@, "num_chunks"@) is None,
        r == Err::<IndexMetadata, UpdateError>(UpdateError::MissingNumPartitions)
            <==> json_accepted(text@) && json_u64_member(text@, "num_chunks"@) is Some
            && json_i64_member(text@, "num_partitions"@) is None,
        r == Err::<IndexMetadata, UpdateError>(UpdateError::MissingBucketCutoffs)
            <==> json_accepted(text@) && json_u64_member(text@, "num_chunks"@) is Some
            && json_i64_member(text@, "num_partitions"@) is Some && !has_cutoffs,
{
    match read_metadata(text, listed) {
        Err(e) => Err(e),
        Ok(meta) => if has_cutoffs {
            Ok(meta)
        } else {
            Err(UpdateError::MissingBucketCutoffs)
        },
    }
}

/// What the metadata of a chunk say.
#[derive(Clone, Copy, Debug, PartialEq, Eq, Structural)]
pub struct ChunkMetadata {
    pub num_documents: Option<u64>,
    pub num_embeddings: Option<u64>,
    pub embedding_offset: Option<u64>,
}

/// Where new documents go.
#[derive(Clone, Copy, Debug, PartialEq, Eq, Structural)]
pub struct AppendPoint {
    /// The first chunk that is written.
    pub start_chunk: usize,
    /// Whether that chunk holds documents already.
    pub append_to_last: bool,
    /// Where its embeddings start.
    pub offset: usize,
}

/// What the metadata of a chunk say, if they are JSON.
pub open spec fn chunk_metadata_of(text: Seq<u8>) -> ChunkMetadata {
    ChunkMetadata {
        num_documents: json_u64_member(text, "num_documents"@),
        num_embeddings: json_u64_member(text, "num_embeddings"@),
        embedding_offset: json_u64_member(text, "embedding_offset"@),
    }
}

/// The last chunk takes new documents: it is known to hold few.
pub open spec fn takes_more(meta: IndexMetadata, last: Option<ChunkMetadata>) -> bool {
    &&& meta.num_chunks > 0
    &&& last matches Some(c) && c.num_documents matches Some(n) && n < APPEND_BELOW
}

/// Embeddings in a chunk, as far as its metadata say.
pub open spec fn embeddings_in(c: ChunkMetadata) -> u64 {
    match c.num_embeddings {
        Some(n) => n,
        None => 0,
    }
}

/// The last chunk does not claim more embeddings than there are.
pub open spec fn counts_agree(meta: IndexMetadata, last: Option<ChunkMetadata>) -> bool {
    takes_more(meta, last) && last->0.embedding_offset is None ==> embeddings_in(last->0)
        <= meta.num_embeddings as u64
}

/// Where new documents go: behind the documents of the last chunk if that holds few, and into a
/// new chunk otherwise.
pub open spec fn append_point(meta: IndexMetadata, last: Option<ChunkMetadata>) -> AppendPoint {
    if takes_more(meta, last) {
        AppendPoint {
            start_chunk: (meta.num_chunks - 1) as usize,
            append_to_last: true,
            offset: match last->0.embedding_offset {
                Some(o) => o as usize,
                None => (meta.num_embeddings as u64 - embeddings_in(last->0)) as usize,
            },
        }
    } else {
        AppendPoint {
            start_chunk: meta.num_chunks,
            append_to_last: false,
            offset: meta.num_embeddings as usize,
        }
    }
}

/// New documents go behind all embeddings of the index: what the chunk that they are put into held
/// before ends where the index ends, if its metadata give its place.
pub proof fn append_point_meets_the_end(meta: IndexMetadata, last: Option<ChunkMetadata>)
    requires
        0 <= meta.num_embeddings <= usize::MAX,
        counts_agree(meta, last),
        takes_more(meta, last) ==> (last->0.embedding_offset matches Some(o) ==> o + embeddings_in(
            last->0,
        ) == meta.num_embeddings),
    ensures
        append_point(meta, last).offset + (if append_point(meta, last).append_to_last {
            embeddings_in(last->0) as int
        } else {
            0
        }) == meta.num_embeddings,
{
}

/// No chunk that is full is written over, and no chunk number is left out: the first chunk that is
/// written is the last one when that takes more documents, and the next one otherwise. The last
/// chunk takes more when, and only when, it is known to hold fewer than 2000 documents.
pub proof fn no_full_chunk_is_overwritten(meta: IndexMetadata, last: Option<ChunkMetadata>)
    ensures
        append_point(meta, last).append_to_last ==> append_point(meta, last).start_chunk + 1
            == meta.num_chunks,
        !append_point(meta, last).append_to_last ==> append_point(meta, last).start_chunk
            == meta.num_chunks,
        append_point(meta, last).append_to_last <==> meta.num_chunks > 0 && last is Some
            && last->0.num_documents is Some && last->0.num_documents->0 < 2000,
        !append_point(meta, last).append_to_last && 0 <= meta.num_embeddings <= usize::MAX
            ==> append_point(meta, last).offset == meta.num_embeddings,
        append_point(meta, last).append_to_last && last->0.embedding_offset is Some
            && last->0.embedding_offset->0 <= usize::MAX ==> append_point(meta, last).offset
            == last->0.embedding_offset->0,
        append_point(meta, last).append_to_last && last->0.embedding_offset is None
            && last->0.num_embeddings is Some && 0 <= meta.num_embeddings <= usize::MAX
            && last->0.num_embeddings->0 <= meta.num_embeddings ==> append_point(meta, last).offset
            + last->0.num_embeddings->0 == meta.num_embeddings,
        append_point(meta, last).append_to_last && last->0.embedding_offset is None
            && last->0.num_embeddings is None && 0 <= meta.num_embeddings <= usize::MAX
            ==> append_point(meta, last).offset == meta.num_embeddings,
{
}

/// The file with the metadata of the last chunk, if there is a chunk.
pub fn last_metadata_file(meta: &IndexMetadata) -> (r: Option<String>)
    ensures
        r is Some <==> meta.num_chunks > 0,
        r matches Some(s) ==> s@ == decimal((meta.num_chunks - 1) as nat) + ".metadata.json"@,
{
    if meta.num_chunks > 0 {
        Some(metadata_file(meta.num_chunks - 1))
    } else {
        None
    }
}

/// Settles where new documents go. `last` is what the metadata of the last chunk say, if they
/// exist.
pub fn choose_append_point(meta: &IndexMetadata, last: Option<ChunkMetadata>) -> (r: AppendPoint)
    requires
        counts_agree(*meta, last),
    ensures
        r == append_point(*meta, last),
        r.append_to_last ==> r.start_chunk + 1 == meta.num_chunks,
        !r.append_to_last ==> r.start_chunk == meta.num_chunks,
        r.append_to_last <==> meta.num_chunks > 0 && last is Some && last->0.num_documents is Some
            && last->0.num_documents->0 < 2000,
        !r.append_to_last ==> r.offset == meta.num_embeddings as usize,
        r.append_to_last && last->0.embedding_offset is Some ==> r.offset
            == last->0.embedding_offset->0 as usize,
        r.append_to_last && last->0.embedding_offset is None && last->0.num_embeddings is Some
            ==> r.offset == (meta.num_embeddings as u64 - last->0.num_embeddings->0) as usize,
        r.append_to_last && last->0.embedding_offset is None && last->0.num_embeddings is None
            ==> r.offset == meta.num_embeddings as u64 as usize,
{
    let fresh = AppendPoint {
        start_chunk: meta.num_chunks,
        append_to_last: false,
        offset: meta.num_embeddings as usize,
    };
    if meta.num_chunks == 0 {
        return fresh;
    }
    match last {
        None => fresh,
        Some(c) => match c.num_documents {
            None => fresh,
            Some(n) => {
                if n < APPEND_BELOW {
                    let offset: usize = match c.embedding_offset {
                        Some(o) => o as usize,
                        None => {
                            let inside: u64 = match c.num_embeddings {
                                Some(e) => e,
                                None => 0,
                            };
                            (meta.num_embeddings as u64 - inside) as usize
                        },
                    };
                    AppendPoint { start_chunk: meta.num_chunks - 1, append_to_last: true, offset }
                } else {
                    fresh
                }
            },
        },
    }
}

/// Settles where new documents go from the text of the last chunk's metadata, if the file exists.
pub fn find_append_point(meta: &IndexMetadata, last: Option<&[u8]>) -> (r: Result<
    AppendPoint,
    UpdateError,
>)
    ensures
        match last {
            None => r == Ok::<AppendPoint, UpdateError>(append_point(*meta, None)),
            Some(text) => if meta.num_chunks == 0 {
                r == Ok::<AppendPoint, UpdateError>(append_point(*meta, None))
            } else if !json_accepted(text@) {
                r == Err::<AppendPoint, UpdateError>(UpdateError::InvalidChunkMetadata)
            } else if !counts_agree(*meta, Some(chunk_metadata_of(text@))) {
                r == Err::<AppendPoint, UpdateError>(UpdateError::CountsDisagree)
            } else {
                r == Ok::<AppendPoint, UpdateError>(
                    append_point(*meta, Some(chunk_metadata_of(text@))),
                )
            },
        },
        r matches Ok(p) ==> {
            &&& p.append_to_last ==> p.start_chunk + 1 == meta.num_chunks
            &&& !p.append_to_last ==> p.start_chunk == meta.num_chunks
            &&& !p.append_to_last ==> p.offset == meta.num_embeddings as usize
            &&& p.append_to_last <==> meta.num_chunks > 0 && last is Some && (json_u64_member(
                last->0@,
                "num_documents"@,
            ) matches Some(n) && n < 2000)
            &&& p.append_to_last && json_u64_member(last->0@, "embedding_offset"@) is Some
                ==> p.offset == json_u64_member(last->0@, "embedding_offset"@)->0 as usize
            &&& p.append_to_last && json_u64_member(last->0@, "embedding_offset"@) is None
                && json_u64_member(last->0@, "num_embeddings"@) is Some ==> p.offset == (
            meta.num_embeddings as u64 - json_u64_member(
                last->0@,
                "num_embeddings"@,
            )->0) as usize
        },
        r == Err::<AppendPoint, UpdateError>(UpdateError::InvalidChunkMetadata)
            <==> meta.num_chunks > 0 && last is Some && !json_accepted(last->0@),
        r == Err::<AppendPoint, UpdateError>(UpdateError::CountsDisagree) <==> {
            &&& meta.num_chunks > 0
            &&& last is Some
            &&& json_accepted(last->0@)
            &&& json_u64_member(last->0@, "num_documents"@) is Some
            &&& json_u64_member(last->0@, "num_documents"@)->0 < 2000
            &&& json_u64_member(last->0@, "embedding_offset"@) is None
            &&& json_u64_member(last->0@, "num_embeddings"@) is Some
            &&& json_u64_member(last->0@, "num_embeddings"@)->0 > meta.num_embeddings as u64
        },
        r matches Err(e) ==> e == UpdateError::InvalidChunkMetadata || e
            == UpdateError::CountsDisagree,
{
    if meta.num_chunks == 0 {
        return Ok(choose_append_point(meta, None));
    }
    match last {
        None => Ok(choose_append_point(meta, None)),
        Some(text) => {
            if !is_json(text) {
                return Err(UpdateError::InvalidChunkMetadata);
            }
            let c = ChunkMetadata {
                num_documents: u64_member(text, "num_documents"),
                num_embeddings: u64_member(text, "num_embeddings"),
                embedding_offset: u64_member(text, "embedding_offset"),
            };
            if let Some(n) = c.num_documents {
                if n < APPEND_BELOW && c.embedding_offset.is_none() {
                    let inside: u64 = match c.num_embeddings {
                        Some(e) => e,
                        None => 0,
                    };
                    if inside > meta.num_embeddings as u64 {
                        return Err(UpdateError::CountsDisagree);
                    }
                }
            }
            Ok(choose_append_point(meta, Some(c)))
        },
    }
}

/// Rows that are scored against `num_centroids` centroids at once. On a graphics device the scores,
/// two bytes each, must fit into a limited space.
pub fn safe_batch_size(on_cpu: bool, num_centroids: i64, batch_size: i64) -> (r: i64)
    requires
        on_cpu || 0 < num_centroids <= i64::MAX / 2,
    ensures
        r == if on_cpu || batch_size < SCORE_BYTES as int / (num_centroids * 2) {
            batch_size as int
        } else {
            SCORE_BYTES as int / (num_centroids * 2)
        },
        r <= batch_size,
        on_cpu ==> r == batch_size,
        !on_cpu ==> 2 * num_centroids * r <= 4_294_967_296,
        r < batch_size ==> 2 * num_centroids * (r + 1) > 4_294_967_296,
{
    if on_cpu {
        batch_size
    } else {
        let rows: i64 = SCORE_BYTES / (num_centroids * 2);
        proof {
            let wide = num_centroids * 2;
            vstd::arithmetic::div_mod::lemma_fundamental_div_mod(SCORE_BYTES as int, wide);
            let left = SCORE_BYTES as int % wide;
            assert(wide * rows <= 4_294_967_296 < wide * (rows + 1)) by (nonlinear_arith)
                requires
                    4_294_967_296 == wide * rows + left,
                    0 <= left < wide,
            ;
            if batch_size < rows {
                assert(wide * batch_size <= wide * rows) by (nonlinear_arith)
                    requires
                        batch_size < rows,
                        0 < wide,
                ;
            }
        }
        if batch_size < rows {
            batch_size
        } else {
            rows
        }
    }
}

/// What is written when new documents have been added.
pub struct UpdateOutcome {
    /// The new inverted file, if it changes: the lists back to back, and their lengths.
    pub ivf: Option<(Vec<i64>, Vec<i64>)>,
    /// The new metadata of the index, if they change.
    pub metadata: Option<IndexMetadata>,
}

/// Number of cells of an index.
pub open spec fn cells_of(meta: IndexMetadata) -> int {
    if meta.num_partitions > 0 {
        meta.num_partitions as int
    } else {
        0
    }
}

/// For every cell, the passages of the new documents.
pub open spec fn new_lists(meta: IndexMetadata, codes: Seq<i64>, lens: Seq<i64>) -> Seq<Seq<i64>> {
    cell_lists(codes, lens, meta.num_documents as int, cells_of(meta))
}

/// Some new document has a token in some cell.
pub open spec fn touches_cells(lists: Seq<Seq<i64>>) -> bool {
    exists|c: int| 0 <= c < lists.len() && (#[trigger] lists[c]).len() > 0
}

/// The metadata of the index once the new documents are in it. Without any, the number of chunks
/// stays.
pub open spec fn grown_metadata(
    meta: IndexMetadata,
    start_chunk: int,
    new_chunks: int,
    lens: Seq<i64>,
) -> IndexMetadata {
    IndexMetadata {
        num_chunks: if lens.len() == 0 {
            meta.num_chunks
        } else {
            (start_chunk + new_chunks) as usize
        },
        num_documents: (meta.num_documents + lens.len()) as i64,
        num_partitions: meta.num_partitions,
        num_embeddings: (meta.num_embeddings + total_rows(lens)) as i64,
        compress_only: meta.compress_only,
    }
}

/// New documents are counted: the metadata grow by their number and by the number of their tokens,
/// and everything else stays. The chunks are those before the first that was written, and those that
/// were written.
pub proof fn metadata_count_the_new_documents(
    meta: IndexMetadata,
    start_chunk: int,
    new_chunks: int,
    lens: Seq<i64>,
)
    requires
        meta.num_documents + lens.len() <= i64::MAX,
        i64::MIN <= meta.num_embeddings + total_rows(lens) <= i64::MAX,
        0 <= start_chunk,
        0 <= new_chunks,
        start_chunk + new_chunks <= usize::MAX,
    ensures
        grown_metadata(meta, start_chunk, new_chunks, lens).num_documents - meta.num_documents
            == lens.len(),
        grown_metadata(meta, start_chunk, new_chunks, lens).num_embeddings - meta.num_embeddings
            == lens.fold_left(0int, |sum: int, l: i64| sum + l),
        grown_metadata(meta, start_chunk, new_chunks, lens).num_partitions == meta.num_partitions,
        grown_metadata(meta, start_chunk, new_chunks, lens).compress_only == meta.compress_only,
        lens.len() > 0 ==> grown_metadata(meta, start_chunk, new_chunks, lens).num_chunks
            - start_chunk == new_chunks,
        lens.len() == 0 ==> grown_metadata(meta, start_chunk, new_chunks, lens).num_chunks
            == meta.num_chunks,
{
    rows_are_added_up(lens, lens.len());
}

/// The new documents touch a cell when, and only when, one of their tokens has the code of a cell.
pub proof fn cells_are_touched_by_tokens(meta: IndexMetadata, codes: Seq<i64>, lens: Seq<i64>)
    requires
        are_lengths(lens),
        total_rows(lens) <= codes.len(),
        meta.num_documents + lens.len() <= i64::MAX,
    ensures
        touches_cells(new_lists(meta, codes, lens)) <==> exists|e: int|
            0 <= e < total_rows(lens) && 0 <= #[trigger] codes[e] < meta.num_partitions,
        new_lists(meta, codes, lens).len() == if meta.num_partitions > 0 {
            meta.num_partitions as int
        } else {
            0
        },
{
    let lists = new_lists(meta, codes, lens);
    let first = meta.num_documents as int;
    if touches_cells(lists) {
        let c = choose|c: int| 0 <= c < lists.len() && (#[trigger] lists[c]).len() > 0;
        let p = lists[c][0];
        assert(lists[c].contains(p));
        cells_list_their_documents(codes, lens, first, cells_of(meta), c, p);
        let e = choose|e: int|
            rows_before(lens, (p - first) as nat) <= e < rows_before(lens, (p - first + 1) as nat)
                && #[trigger] codes[e] == c;
        lemma_rows_monotonic(lens, 0, (p - first) as nat);
        lemma_rows_monotonic(lens, (p - first + 1) as nat, lens.len());
        assert(0 <= e < total_rows(lens) && 0 <= codes[e] < meta.num_partitions);
    }
    if exists|e: int|
        0 <= e < total_rows(lens) && 0 <= #[trigger] codes[e] < meta.num_partitions {
        let e = choose|e: int|
            0 <= e < total_rows(lens) && 0 <= #[trigger] codes[e] < meta.num_partitions;
        let c = codes[e] as int;
        let d = lemma_document_of_row(lens, lens.len(), e);
        let p = (first + d) as i64;
        cells_list_their_documents(codes, lens, first, cells_of(meta), c, p);
        assert(lists[c].contains(p));
        assert(lists[c].len() > 0);
    }
}

proof fn lemma_document_of_row(lens: Seq<i64>, n: nat, e: int) -> (d: int)
    requires
        n <= lens.len(),
        0 <= e < rows_before(lens, n),
    ensures
        0 <= d < n,
        rows_before(lens, d as nat) <= e < rows_before(lens, (d + 1) as nat),
    decreases n,
{
    if rows_before(lens, (n - 1) as nat) <= e {
        n - 1
    } else {
        lemma_document_of_row(lens, (n - 1) as nat, e)
    }
}

/// Every list grows by the new documents with a token of its code, and keeps what it held: the
/// passages that it names afterwards are the old ones, in their order, and behind them, in
/// increasing order, the new documents that have a token with that code.
pub proof fn lists_grow_by_the_new_documents(
    meta: IndexMetadata,
    codes: Seq<i64>,
    lens: Seq<i64>,
    old_lists: Seq<Seq<i64>>,
    c: int,
    p: i64,
)
    requires
        are_lengths(lens),
        total_rows(lens) <= codes.len(),
        meta.num_documents + lens.len() <= i64::MAX,
        0 <= c < meta.num_partitions,
    ensures
        ({
            let list = merged_lists(old_lists, new_lists(meta, codes, lens))[c];
            let n = if c < old_lists.len() {
                old_lists[c].len() as int
            } else {
                0
            };
            &&& n <= list.len()
            &&& c < old_lists.len() ==> list.take(n) == old_lists[c]
            &&& forall|i: int, j: int| n <= i < j < list.len() ==> #[trigger] list[i]
                < #[trigger] list[j]
            &&& list.skip(n).contains(p) <==> meta.num_documents <= p < meta.num_documents
                + lens.len() && exists|e: int|
                rows_before(lens, (p - meta.num_documents) as nat) <= e < rows_before(
                    lens,
                    (p - meta.num_documents + 1) as nat,
                ) && #[trigger] codes[e] == c
        }),
{
    let fresh = new_lists(meta, codes, lens);
    cells_list_their_documents(codes, lens, meta.num_documents as int, cells_of(meta), c, p);
    let list = merged_lists(old_lists, fresh)[c];
    if c < old_lists.len() {
        assert(list.take(old_lists[c].len() as int) =~= old_lists[c]);
        assert(list.skip(old_lists[c].len() as int) =~= fresh[c]);
        let n = old_lists[c].len() as int;
        assert forall|i: int, j: int| n <= i < j < list.len() implies #[trigger] list[i]
            < #[trigger] list[j] by {
            assert(list[i] == fresh[c][i - n] && list[j] == fresh[c][j - n]);
        }
    } else {
        assert(list =~= fresh[c]);
        assert(list.skip(0) =~= list);
    }
}

/// Finishes an update: `codes` and `doclens` are those of the new documents, which fill
/// `new_chunks` chunks from `start_chunk` on.
///
/// The passages of the new documents are merged into the inverted file, unless the index is kept
/// without one. When no new document has a token in any cell, inverted file and metadata stay as
/// they are. There must be a new document, unless the index is kept without an inverted file.
pub fn finish_update(
    meta: &IndexMetadata,
    start_chunk: usize,
    new_chunks: usize,
    codes: &Vec<i64>,
    doclens: &Vec<i64>,
    ivf: Option<&StridedTensor<i64>>,
) -> (r: Result<UpdateOutcome, UpdateError>)
    requires
        meta.compress_only || doclens@.len() > 0,
        are_lengths(doclens@),
        total_rows(doclens@) <= codes@.len(),
        start_chunk + new_chunks <= usize::MAX,
        doclens@.len() <= i64::MAX,
        meta.num_documents + doclens@.len() <= i64::MAX,
        meta.num_embeddings + total_rows(doclens@) <= i64::MAX,
        meta.num_partitions <= usize::MAX,
        ivf matches Some(t) ==> t.wf() && total_rows(t.row_counts()) + doclens@.len() <= i64::MAX,
    ensures
        r is Err <==> !meta.compress_only && ivf is None,
        r matches Err(e) ==> e == UpdateError::MissingIvf,
        r matches Ok(o) ==> {
            let fresh = new_lists(*meta, codes@, doclens@);
            let grown = grown_metadata(*meta, start_chunk as int, new_chunks as int, doclens@);
            if meta.compress_only {
                o.ivf is None && o.metadata == Some(grown)
            } else if !touches_cells(fresh) {
                o.ivf is None && o.metadata is None
            } else {
                &&& o.metadata == Some(grown)
                &&& o.ivf matches Some((lists, lengths)) && lists@ == merged_lists(
                    ivf->0@,
                    fresh,
                ).flatten() && lengths@ == merged_lengths(ivf->0.row_counts(), fresh)
            }
        },
        r matches Ok(o) ==> {
            &&& o.ivf is Some <==> !meta.compress_only && exists|e: int|
                #![trigger codes@[e]]
                0 <= e < total_rows(doclens@) && 0 <= codes@[e] < meta.num_partitions
            &&& o.metadata is Some <==> meta.compress_only || o.ivf is Some
            &&& o.metadata matches Some(m) ==> {
                &&& m.num_documents == meta.num_documents + doclens@.len()
                &&& m.num_embeddings == meta.num_embeddings + total_rows(doclens@)
                &&& m.num_partitions == meta.num_partitions
                &&& m.compress_only == meta.compress_only
                &&& doclens@.len() > 0 ==> m.num_chunks == start_chunk + new_chunks
                &&& doclens@.len() == 0 ==> m.num_chunks == meta.num_chunks
            }
            &&& o.ivf matches Some((lists, lengths)) ==> lengths@.len() == meta.num_partitions
        },
{
    proof {
        cells_are_touched_by_tokens(*meta, codes@, doclens@);
    }
    let ghost fresh_lists = new_lists(*meta, codes@, doclens@);
    let mut merged: Option<(Vec<i64>, Vec<i64>)> = None;
    if !meta.compress_only {
        let fresh = partition_pids(codes, doclens, meta.num_documents, meta.num_partitions);
        assert(list_views(fresh@) == fresh_lists);
        let old_ivf = match ivf {
            Some(t) => t,
            None => {
                return Err(UpdateError::MissingIvf);
            },
        };
        let mut empty: bool = true;
        let mut c: usize = 0;
        while c < fresh.len()
            invariant
                c <= fresh.len(),
                list_views(fresh@) == fresh_lists,
                empty <==> forall|k: int| 0 <= k < c ==> (#[trigger] fresh_lists[k]).len() == 0,
            decreases fresh.len() - c,
        {
            assert(fresh_lists[c as int] == fresh@[c as int]@);
            if fresh[c].len() > 0 {
                empty = false;
            }
            c += 1;
        }
        proof {
            old_ivf.lemma_parts();
            assert forall|k: int| 0 <= k < fresh@.len() implies (if k < old_ivf.row_counts().len() {
                old_ivf.row_counts()[k] as int
            } else {
                0
            }) + (#[trigger] fresh@[k])@.len() <= i64::MAX by {
                assert(fresh_lists[k] == fresh@[k]@);
                listed_iff_coded(
                    codes@,
                    doclens@,
                    meta.num_documents as int,
                    k as i64,
                    doclens@.len(),
                );
                if k < old_ivf.row_counts().len() {
                    let counts = old_ivf.row_counts();
                    lemma_rows_monotonic(counts, 0, k as nat);
                    lemma_rows_monotonic(counts, (k + 1) as nat, counts.len());
                } else {
                    lemma_rows_monotonic(old_ivf.row_counts(), 0, old_ivf.row_counts().len());
                }
            }
        }
        assert(touches_cells(fresh_lists) <==> !empty);
        if empty {
            return Ok(UpdateOutcome { ivf: None, metadata: None });
        }
        merged = Some(merge_ivf(old_ivf, &fresh));
    }
    let mut tokens: i64 = meta.num_embeddings;
    let mut i: usize = 0;
    while i < doclens.len()
        invariant
            i <= doclens.len(),
            are_lengths(doclens@),
            total_rows(doclens@) <= codes.len(),
            meta.num_embeddings + total_rows(doclens@) <= i64::MAX,
            tokens == meta.num_embeddings + rows_before(doclens@, i as nat),
        decreases doclens.len() - i,
    {
        proof {
            lemma_rows_monotonic(doclens@, i as nat, doclens@.len());
            lemma_rows_monotonic(doclens@, i as nat + 1, doclens@.len());
        }
        tokens = tokens + doclens[i];
        i += 1;
    }
    let added: usize = doclens.len();
    let grown = IndexMetadata {
        num_chunks: if added == 0 {
            meta.num_chunks
        } else {
            start_chunk + new_chunks
        },
        num_documents: meta.num_documents + added as i64,
        num_partitions: meta.num_partitions,
        num_embeddings: tokens,
        compress_only: meta.compress_only,
    };
    Ok(UpdateOutcome { ivf: merged, metadata: Some(grown) })
}

/// Rows are scored in the batches asked for on the processor. On a graphics device no batch has more
/// scores than fit into four gibibytes at two bytes each, and a batch is cut down no further than
/// that takes.
pub proof fn batches_fit_the_device(on_cpu: bool, num_centroids: i64, batch_size: i64, r: i64)
    requires
        call_ensures(safe_batch_size, (on_cpu, num_centroids, batch_size), r),
        0 < num_centroids <= i64::MAX / 2,
    ensures
        r <= batch_size,
        on_cpu ==> r == batch_size,
        !on_cpu ==> 2 * num_centroids * r <= 4_294_967_296,
        r < batch_size ==> 2 * num_centroids * (r + 1) > 4_294_967_296,
{
}

/// An update writes chunks of 25 000 documents, as many as the new documents take.
pub proof fn updates_write_chunks_of_25_000(n: int)
    requires
        0 < n,
    ensures
        (chunks_for(n, DEFAULT_PROC_CHUNK_SIZE as int) - 1) * 25_000 < n <= chunks_for(
            n,
            DEFAULT_PROC_CHUNK_SIZE as int,
        ) * 25_000,
{
    chunks_are_as_many_as_needed(n, DEFAULT_PROC_CHUNK_SIZE as int);
}

/// Where new documents go, no chunk that holds as many documents as a chunk takes is written over,
/// and no chunk number is left out. They go behind the documents of the last chunk when that is known
/// to hold fewer than 2000.
pub proof fn new_documents_go_behind_the_others(
    meta: &IndexMetadata,
    last: Option<ChunkMetadata>,
    p: AppendPoint,
)
    requires
        call_ensures(choose_append_point, (meta, last), p),
    ensures
        p.start_chunk + (if p.append_to_last {
            1int
        } else {
            0
        }) == meta.num_chunks,
        p.append_to_last <==> meta.num_chunks > 0 && last is Some && last->0.num_documents is Some
            && last->0.num_documents->0 < 2000,
        !p.append_to_last ==> p.offset == meta.num_embeddings as usize,
        p.append_to_last && last->0.embedding_offset is Some ==> p.offset
            == last->0.embedding_offset->0 as usize,
{
}

/// The metadata of the last chunk are looked up under the number of that chunk, if there is one.
pub proof fn the_last_chunk_is_looked_up(meta: &IndexMetadata, r: Option<String>)
    requires
        call_ensures(last_metadata_file, (meta,), r),
    ensures
        meta.num_chunks == 0 ==> r is None,
        meta.num_chunks > 0 ==> r is Some && r->0@ == decimal((meta.num_chunks - 1) as nat)
            + ".metadata.json"@,
{
}

/// An update counts the new documents and their tokens, leaves the number of cells, and fails only
/// where the lists that it should grow are missing. Lists and metadata stay as they are where no new
/// token has a cell.
pub proof fn updates_count_the_new_documents(
    meta: &IndexMetadata,
    start_chunk: usize,
    new_chunks: usize,
    codes: &Vec<i64>,
    doclens: &Vec<i64>,
    ivf: Option<&StridedTensor<i64>>,
    r: Result<UpdateOutcome, UpdateError>,
)
    requires
        call_ensures(finish_update, (meta, start_chunk, new_chunks, codes, doclens, ivf), r),
        doclens@.len() > 0,
    ensures
        r is Err <==> !meta.compress_only && ivf is None,
        r matches Ok(o) ==> {
            &&& meta.compress_only ==> o.ivf is None && o.metadata is Some
            &&& !meta.compress_only ==> (o.ivf is Some <==> exists|e: int|
                0 <= e < total_rows(doclens@) && 0 <= #[trigger] codes@[e] < meta.num_partitions)
            &&& !meta.compress_only ==> (o.metadata is Some <==> o.ivf is Some)
            &&& o.metadata is Some ==> {
                let m = o.metadata->0;
                &&& m.num_documents - meta.num_documents == doclens@.len()
                &&& m.num_embeddings - meta.num_embeddings == doclens@.fold_left(
                    0int,
                    |sum: int, l: i64| sum + l,
                )
                &&& m.num_chunks == start_chunk + new_chunks
                &&& m.num_partitions == meta.num_partitions
                &&& m.compress_only == meta.compress_only
            }
        },
{
    rows_are_added_up(doclens@, doclens@.len());
}

} // verus!
