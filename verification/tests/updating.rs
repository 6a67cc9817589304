use fast_plaid::strided::StridedTensor;
use fast_plaid::update::{
    begin_update, choose_append_point, find_append_point, finish_update, last_metadata_file,
    read_layout, safe_batch_size, AppendPoint, ChunkMetadata, IndexLayout, IndexMetadata,
    UpdateError,
};

fn meta(num_chunks: usize, num_embeddings: i64) -> IndexMetadata {
    IndexMetadata {
        num_chunks,
        num_documents: 5,
        num_partitions: 4,
        num_embeddings,
        compress_only: false,
    }
}

#[test]
fn metadata_are_read() {
    let text = b"{\"num_chunks\":2,\"num_documents\":5,\"num_partitions\":4,\"num_embeddings\":9,\
        \"compress_only\":true,\"avg_doclen\":1.8}";
    let want = IndexMetadata { compress_only: true, ..meta(2, 9) };
    assert_eq!(begin_update(text, 77, true), Ok(want));
    let short = b"{\"num_chunks\":2,\"num_partitions\":4}";
    let want = IndexMetadata { num_documents: 77, ..meta(2, 0) };
    assert_eq!(begin_update(short, 77, true), Ok(want));
}

#[test]
fn metadata_are_refused() {
    assert_eq!(begin_update(b"{", 0, true), Err(UpdateError::InvalidMetadata));
    assert_eq!(
        begin_update(b"{\"num_partitions\":4}", 0, true),
        Err(UpdateError::MissingNumChunks)
    );
    assert_eq!(
        begin_update(b"{\"num_chunks\":-2,\"num_partitions\":4}", 0, true),
        Err(UpdateError::MissingNumChunks)
    );
    assert_eq!(
        begin_update(b"{\"num_chunks\":2,\"num_partitions\":\"4\"}", 0, true),
        Err(UpdateError::MissingNumPartitions)
    );
    assert_eq!(
        begin_update(b"{\"num_chunks\":2,\"num_partitions\":4}", 0, false),
        Err(UpdateError::MissingBucketCutoffs)
    );
    assert_eq!(begin_update(b"[]", 0, true), Err(UpdateError::MissingNumChunks));
}

#[test]
fn layouts_are_read() {
    let layout = IndexLayout { nbits: 4, num_chunks: 12 };
    assert_eq!(read_layout(b"{\"num_chunks\":12,\"nbits\":4,\"x\":0}"), Some(layout));
    assert_eq!(read_layout(b"{\"num_chunks\":12}"), None);
    assert_eq!(read_layout(b"{\"num_chunks\":-1,\"nbits\":4}"), None);
    assert_eq!(read_layout(b"{\"num_chunks\":12,\"nbits\":4"), None);
}

#[test]
fn small_last_chunks_take_new_documents() {
    let text = b"{\"num_documents\":1999,\"num_embeddings\":4,\"embedding_offset\":6}";
    let here = AppendPoint { start_chunk: 1, append_to_last: true, offset: 6 };
    assert_eq!(find_append_point(&meta(2, 10), Some(&text[..])), Ok(here));
    let text = b"{\"num_documents\":3,\"num_embeddings\":4}";
    assert_eq!(find_append_point(&meta(2, 10), Some(&text[..])), Ok(here));
    let text = b"{\"num_documents\":3}";
    let whole = AppendPoint { start_chunk: 1, append_to_last: true, offset: 10 };
    assert_eq!(find_append_point(&meta(2, 10), Some(&text[..])), Ok(whole));
}

#[test]
fn other_documents_start_a_chunk() {
    let fresh = AppendPoint { start_chunk: 2, append_to_last: false, offset: 10 };
    let full = b"{\"num_documents\":2000,\"num_embeddings\":4,\"embedding_offset\":6}";
    assert_eq!(find_append_point(&meta(2, 10), Some(&full[..])), Ok(fresh));
    assert_eq!(find_append_point(&meta(2, 10), Some(&b"{}"[..])), Ok(fresh));
    assert_eq!(find_append_point(&meta(2, 10), None), Ok(fresh));
    let first = AppendPoint { start_chunk: 0, append_to_last: false, offset: 0 };
    assert_eq!(find_append_point(&meta(0, 0), None), Ok(first));
    assert_eq!(last_metadata_file(&meta(2, 10)), Some("1.metadata.json".to_string()));
    assert_eq!(last_metadata_file(&meta(0, 0)), None);
}

#[test]
fn last_chunks_that_are_refused() {
    assert_eq!(
        find_append_point(&meta(2, 10), Some(&b"{"[..])),
        Err(UpdateError::InvalidChunkMetadata)
    );
    let text = b"{\"num_documents\":3,\"num_embeddings\":11}";
    assert_eq!(
        find_append_point(&meta(2, 10), Some(&text[..])),
        Err(UpdateError::CountsDisagree)
    );
}

#[test]
fn append_points_from_plain_values() {
    let last = ChunkMetadata {
        num_documents: Some(7),
        num_embeddings: Some(3),
        embedding_offset: None,
    };
    assert_eq!(
        choose_append_point(&meta(4, 10), Some(last)),
        AppendPoint { start_chunk: 3, append_to_last: true, offset: 7 }
    );
}

#[test]
fn batches_fit_on_a_device() {
    assert_eq!(safe_batch_size(true, 0, 1_000_000), 1_000_000);
    assert_eq!(safe_batch_size(false, 1024, 1_000_000), 1_000_000);
    assert_eq!(safe_batch_size(false, 65_536, 1_000_000), 32_768);
}

#[test]
fn updates_are_finished() {
    let old_ivf = StridedTensor::new(vec![0, 4, 2], vec![2, 1, 0, 0], 1).unwrap();
    let done =
        finish_update(&meta(2, 9), 1, 1, &vec![1, 1, 3], &vec![2, 1], Some(&old_ivf)).unwrap();
    assert_eq!(done.ivf, Some((vec![0, 4, 2, 5, 6], vec![2, 2, 0, 1])));
    assert_eq!(
        done.metadata,
        Some(IndexMetadata { num_documents: 7, ..meta(2, 12) })
    );
}

#[test]
fn updates_without_lists() {
    let bare = IndexMetadata { compress_only: true, ..meta(2, 9) };
    let done = finish_update(&bare, 2, 1, &vec![1], &vec![1], None).unwrap();
    assert_eq!(done.ivf, None);
    assert_eq!(
        done.metadata,
        Some(IndexMetadata { num_chunks: 3, num_documents: 6, num_embeddings: 10, ..bare })
    );
    let same = finish_update(&bare, 1, 0, &vec![], &vec![], None).unwrap();
    assert_eq!((same.ivf, same.metadata), (None, Some(bare)));
    let missing = finish_update(&meta(2, 9), 2, 1, &vec![1], &vec![1], None);
    assert!(matches!(missing, Err(UpdateError::MissingIvf)));
}

#[test]
fn updates_that_touch_no_cell() {
    let old_ivf = StridedTensor::new(vec![0], vec![1, 0, 0, 0], 1).unwrap();
    let done = finish_update(&meta(2, 9), 2, 1, &vec![9], &vec![1], Some(&old_ivf)).unwrap();
    assert_eq!(done.ivf, None);
    assert_eq!(done.metadata, None);
}
