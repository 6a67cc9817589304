use fast_plaid::chunks::{chunk_count, chunk_range, chunk_size, row_batches};
use fast_plaid::create::{
    chunk_files, finish_index, partition_count, plan_from_sample, plan_index, total_length,
    CreateError, EncodedBatch, Metadata, StoredChunk,
};
use fast_plaid::ivf::check_listable;
use fast_plaid::offsets::{check_chunks, gather_codes, OffsetTable};
use fast_plaid::packing::pack_buckets;
use fast_plaid::sampling::{
    heldout_size, heldout_slices, sample_count, sample_passages, sampled_lengths, RowSlice,
};
use fast_plaid::update::IndexMetadata;

#[test]
fn chunks_cover_the_documents() {
    assert_eq!(chunk_count(10, 4), 3);
    assert_eq!(chunk_size(10, 4), 4);
    assert_eq!(
        (chunk_range(10, 4, 0), chunk_range(10, 4, 1), chunk_range(10, 4, 2)),
        ((0, 4), (4, 8), (8, 10))
    );
    assert_eq!(chunk_count(8, 4), 2);
    assert_eq!(chunk_count(5, 25_000), 1);
    assert_eq!(chunk_size(5, 25_000), 6);
    assert_eq!(chunk_range(5, 25_000, 0), (0, 5));
    assert_eq!(chunk_count(0, 4), 0);
    assert_eq!(chunk_count(5, -1), 0);
    assert_eq!(chunk_count(5, 0), 0);
}

#[test]
fn batches_fill_up_row_by_row() {
    assert_eq!(row_batches(&vec![3, 2, 4, 1, 1], 5), vec![(0, 2), (2, 4), (4, 5)]);
    assert_eq!(row_batches(&vec![3, 2], 5), vec![(0, 2)]);
    assert_eq!(row_batches(&vec![0, 0], 1), vec![(0, 2)]);
    assert_eq!(row_batches(&vec![1, 0], 0), vec![(0, 1), (1, 2)]);
    assert_eq!(row_batches(&vec![], 5), Vec::<(usize, usize)>::new());
}

#[test]
fn sample_sizes() {
    assert_eq!(sample_count(0), 0);
    assert_eq!(sample_count(30_000), 30_000);
    assert_eq!(sample_count(30_722), 30_721);
    assert_eq!(sample_count(40_000), 35_055);
    assert_eq!(sample_count(1_000_000), 175_272);
}

#[test]
fn a_seed_fixes_the_sample() {
    let a = sample_passages(100, Some(42));
    assert_eq!(a, sample_passages(100, Some(42)));
    assert_ne!(a, sample_passages(100, Some(43)));
    let all: Vec<u32> = (0..100).collect();
    for sample in [a, sample_passages(100, None)] {
        assert_ne!(sample, all);
        let mut sorted = sample.clone();
        sorted.sort();
        assert_eq!(sorted, all);
    }
    assert_eq!(sample_passages(40_000, Some(1)).len(), 35_055);
}

#[test]
fn a_twentieth_is_held_out() {
    assert_eq!(heldout_size(0), 0);
    assert_eq!(heldout_size(9), 0);
    assert_eq!(heldout_size(10), 1);
    assert_eq!(heldout_size(29), 1);
    assert_eq!(heldout_size(30), 2);
    assert_eq!(heldout_size(999_989), 49_999);
    assert_eq!(heldout_size(999_990), 50_000);
    assert_eq!(heldout_size(i64::MAX), 50_000);
}

#[test]
fn the_last_rows_are_held_out() {
    let slice = |place, start, rows| RowSlice { place, start, rows };
    assert_eq!(
        heldout_slices(&vec![4, 3, 0, 2], 4),
        vec![slice(1, 1, 2), slice(2, 0, 0), slice(3, 0, 2)]
    );
    assert_eq!(heldout_slices(&vec![4, 3], 0), vec![]);
    assert_eq!(heldout_slices(&vec![2, 1], 3), vec![slice(0, 0, 2), slice(1, 0, 1)]);
    assert_eq!(sampled_lengths(&vec![5, 6, 7], &vec![2, 0]), vec![7, 5]);
}

#[test]
fn partitions() {
    assert_eq!(partition_count(0), 0);
    assert_eq!(partition_count(1), 16);
    assert_eq!(partition_count(3), 16);
    assert_eq!(partition_count(4), 32);
    assert_eq!(partition_count(1_000_000), 8192);
    assert_eq!(partition_count(i64::MAX), 34_359_738_368);
}

#[test]
fn plans() {
    let plan = plan_from_sample(&vec![20, 30, 10], 2, vec![2, 1]);
    assert_eq!(plan.num_chunks, 2);
    assert_eq!(plan.heldout_rows, 2);
    assert_eq!(plan.heldout, vec![RowSlice { place: 1, start: 28, rows: 2 }]);
    assert_eq!(plan.num_partitions, 64);
    assert_eq!(plan.check_training(), Ok(()));
    let seeded = plan_index(&vec![20, 30, 10], 2, Some(7));
    assert_eq!(seeded.sample, plan_index(&vec![20, 30, 10], 2, Some(7)).sample);
    assert_eq!(seeded.heldout_rows, 3);
    let none = plan_index(&vec![1, 2], 2, Some(7));
    assert_eq!(none.check_training(), Err(CreateError::NoHeldoutSamples));
}

fn encoded(codes: Vec<i64>, buckets: Vec<u32>) -> EncodedBatch {
    EncodedBatch { codes, buckets }
}

#[test]
fn files_of_a_chunk() {
    let b0: Vec<u32> = (0..16).map(|i| i % 4).collect();
    let b1: Vec<u32> = (0..8).map(|i| 3 - i % 4).collect();
    let batches = vec![encoded(vec![7, 8], b0.clone()), encoded(vec![9], b1.clone())];
    let files = chunk_files(3, None, &vec![2, 1], &batches, 8, 2);
    assert_eq!(files.codes_name, "3.codes.npy");
    assert_eq!(files.codes, vec![7, 8, 9]);
    assert_eq!(files.residuals_name, "3.residuals.npy");
    let all: Vec<u32> = b0.into_iter().chain(b1).collect();
    assert_eq!(files.residuals, pack_buckets(&all, 2));
    assert_eq!(files.doclens_name, "doclens.3.json");
    assert_eq!(files.doclens, b"[2,1]".to_vec());
    assert_eq!(files.metadata_name, "3.metadata.json");
    assert_eq!(files.metadata, Metadata { num_documents: 2, num_embeddings: 3 });
}

#[test]
fn a_chunk_keeps_what_it_held() {
    let stored = StoredChunk { codes: vec![1], residuals: vec![255, 0], doclens: vec![1] };
    let batches = vec![encoded(vec![2], vec![0, 1, 2, 3, 0, 1, 2, 3])];
    let files = chunk_files(0, Some(stored), &vec![1], &batches, 8, 2);
    assert_eq!(files.codes, vec![1, 2]);
    assert_eq!(files.residuals, vec![255, 0, 0b00_10_01_11, 0b00_10_01_11]);
    assert_eq!(files.doclens, b"[1,1]".to_vec());
    assert_eq!(files.metadata, Metadata { num_documents: 2, num_embeddings: 2 });
}

#[test]
fn finished_indexes() {
    let mut table = OffsetTable::new(0);
    table.add_chunk(b"{\"num_embeddings\":3}").unwrap();
    table.add_chunk(b"{\"num_embeddings\":2}").unwrap();
    let chunks = vec![vec![2, 0, 2], vec![1, 0]];
    assert!(check_chunks(&table, &chunks));
    let codes = gather_codes(&table, &chunks);
    let lens = vec![2, 0, 3];
    assert!(check_listable(&codes, &lens, 4));
    let done = finish_index(2, 4, 3, table.total(), &codes, &lens, false);
    assert_eq!(done.ivf, Some((vec![0, 2, 2, 0, 2], vec![2, 1, 2, 0])));
    let metadata = IndexMetadata {
        num_chunks: 2,
        num_documents: 3,
        num_partitions: 4,
        num_embeddings: 5,
        compress_only: false,
    };
    assert_eq!(done.metadata, metadata);
    let bare = finish_index(2, 4, 3, table.total(), &vec![], &vec![], true);
    assert_eq!(bare.ivf, None);
    assert_eq!(bare.metadata, IndexMetadata { compress_only: true, ..metadata });
}

#[test]
fn parts_that_do_not_fit() {
    let mut table = OffsetTable::new(0);
    table.add_chunk(b"{\"num_embeddings\":2}").unwrap();
    assert!(!check_chunks(&table, &vec![vec![1, 2, 3]]));
    assert!(!check_chunks(&table, &vec![vec![1], vec![]]));
    assert!(check_chunks(&table, &vec![vec![1]]));
    assert!(!check_listable(&vec![1, -1], &vec![2], 4));
    assert!(!check_listable(&vec![1, 1], &vec![1], 4));
    assert!(!check_listable(&vec![1, 1], &vec![3, -1], 4));
    assert!(!check_listable(&vec![], &vec![], 0));
    assert!(!check_listable(&vec![0], &vec![1], -1));
    assert!(check_listable(&vec![1, 1], &vec![i64::MAX, i64::MAX], 0));
    assert_eq!(total_length(&vec![2, 0, 5]), Some(7));
    assert_eq!(total_length(&vec![2, -1]), None);
    assert_eq!(total_length(&vec![i64::MAX, 1]), None);
}
