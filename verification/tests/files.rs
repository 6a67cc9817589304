use fast_plaid::files::{
    codes_file, doclens_chunk, doclens_file, metadata_file, order_doclens_files, residuals_file,
};
use fast_plaid::json::{read_doclens, write_doclens};
use fast_plaid::offsets::{gather_codes, OffsetError, OffsetTable};

fn names(list: &[&str]) -> Vec<String> {
    list.iter().map(|s| s.to_string()).collect()
}

#[test]
fn names_of_chunk_files() {
    assert_eq!(codes_file(0), "0.codes.npy");
    assert_eq!(residuals_file(17), "17.residuals.npy");
    assert_eq!(metadata_file(205), "205.metadata.json");
    assert_eq!(doclens_file(1000), "doclens.1000.json");
}

#[test]
fn the_chunk_is_read_from_the_name() {
    for n in [0usize, 7, 10, 99, 1234567] {
        assert_eq!(doclens_chunk(&doclens_file(n)), Ok(Some(n as i64)));
    }
    assert_eq!(doclens_chunk("old_doclens.0042.json.bak"), Ok(Some(42)));
    assert_eq!(doclens_chunk("doclens.x.doclens.3.json"), Ok(Some(3)));
    assert_eq!(doclens_chunk("doclens..json"), Ok(None));
    assert_eq!(doclens_chunk("metadata.json"), Ok(None));
    assert_eq!(doclens_chunk("doclens.99999999999999999999.json"), Err(()));
    assert_eq!(doclens_chunk("doclens.\u{0663}.json"), Err(()));
}

#[test]
fn length_files_are_ordered_by_chunk() {
    let list = names(&["doclens.10.json", "ivf.npy", "doclens.2.json", "doclens.010.json", "x"]);
    assert_eq!(order_doclens_files(&list), Ok(vec![2, 3]));
    let bad = names(&["a", "doclens.1.json", "doclens.99999999999999999999.json"]);
    assert_eq!(order_doclens_files(&bad), Err(2));
    assert_eq!(order_doclens_files(&names(&[])), Ok(vec![]));
}

#[test]
fn document_lengths_read_back() {
    let lens = vec![12i64, 0, -3, i64::MAX, i64::MIN];
    let text = write_doclens(&lens);
    assert_eq!(text, b"[12,0,-3,9223372036854775807,-9223372036854775808]".to_vec());
    assert_eq!(read_doclens(&text), Some(lens));
    assert_eq!(write_doclens(&vec![]), b"[]".to_vec());
    assert_eq!(read_doclens(b" [1 , 2]\n"), Some(vec![1, 2]));
    assert_eq!(read_doclens(b"[1,2.5]"), None);
    assert_eq!(read_doclens(b"{}"), None);
    assert_eq!(read_doclens(b"[1"), None);
}

#[test]
fn offsets_are_prefix_sums() {
    let mut table = OffsetTable::new(0);
    let first = table.add_chunk(b"{\"num_documents\":2,\"num_embeddings\":5}").unwrap().unwrap();
    let second = table.add_chunk(b"{\"num_embeddings\":3,\"embedding_offset\":99}").unwrap().unwrap();
    assert_eq!(
        String::from_utf8(first).unwrap(),
        "{\n  \"embedding_offset\": 0,\n  \"num_documents\": 2,\n  \"num_embeddings\": 5\n}"
    );
    assert_eq!(
        String::from_utf8(second).unwrap(),
        "{\n  \"embedding_offset\": 5,\n  \"num_embeddings\": 3\n}"
    );
    assert_eq!((table.len(), table.start(0), table.start(1), table.total()), (2, 0, 5, 8));
}

#[test]
fn chunks_without_an_offset() {
    let mut table = OffsetTable::new(4);
    assert_eq!(table.add_chunk(b"{"), Err(OffsetError::InvalidJson));
    assert_eq!(table.add_chunk(b"[1]"), Ok(None));
    assert_eq!(table.add_chunk(b"{\"num_embeddings\":-1}"), Err(OffsetError::InvalidCount));
    assert_eq!(table.add_chunk(b"{}"), Err(OffsetError::InvalidCount));
    assert_eq!(
        table.add_chunk(b"{\"num_embeddings\":18446744073709551615}"),
        Err(OffsetError::TooMany)
    );
    assert_eq!((table.len(), table.total()), (0, 4));
}

#[test]
fn codes_are_brought_together() {
    let mut table = OffsetTable::new(0);
    table.add_chunk(b"{\"num_embeddings\":2}").unwrap();
    table.add_chunk(b"{\"num_embeddings\":0}").unwrap();
    table.add_chunk(b"{\"num_embeddings\":3}").unwrap();
    assert_eq!(
        gather_codes(&table, &vec![vec![4, 5], vec![], vec![6, 7, 8]]),
        vec![4, 5, 6, 7, 8]
    );
    assert_eq!(gather_codes(&table, &vec![vec![4], vec![], vec![6]]), vec![4, 0, 6, 0, 0]);
}
