use fast_plaid::centroids::{Device, TensorValue};
use fast_plaid::codec::{decompress_residuals, ResidualCodec};
use fast_plaid::config::CentroidIndexConfig;
use fast_plaid::packing::{bucket_table, pack_buckets, packbits, reversal_table};

fn codec(nbits: i64) -> ResidualCodec {
    let centroids = TensorValue { device: Device::Cpu, shape: vec![0, 0], values: vec![] };
    ResidualCodec::load(nbits, &centroids, true, true, CentroidIndexConfig::Dense, false).unwrap()
}

#[test]
fn bits_are_packed_highest_first() {
    assert_eq!(packbits(&vec![1, 0, 0, 0, 0, 0, 0, 1, 0, 1, 1, 0, 0, 0, 0, 0]), vec![129, 96]);
    assert_eq!(packbits(&vec![]), Vec::<u8>::new());
}

#[test]
fn buckets_are_packed_lowest_bit_first() {
    assert_eq!(pack_buckets(&vec![1, 2, 3, 0], 2), vec![0b10_01_11_00]);
    assert_eq!(pack_buckets(&vec![0b0001, 0b1000], 4), vec![0b1000_0001]);
}

#[test]
fn reversal_tables() {
    let two = reversal_table(2);
    assert_eq!(two.len(), 256);
    assert_eq!(two[0b10_01_11_00], 0b01_10_11_00);
    for table in [reversal_table(1), two, reversal_table(4), reversal_table(8)] {
        for b in 0..256 {
            assert_eq!(table[table[b] as usize] as usize, b);
        }
    }
    // Two groups of three bits fit into a byte, with room for one more group below them.
    assert_eq!(reversal_table(3)[0b110_100_00], 0b11_001_000);
}

#[test]
fn unpacking_tables() {
    let table = bucket_table(2);
    assert_eq!(table.len(), 1024);
    assert_eq!(table[4 * 0b11_10_01_00..4 * 0b11_10_01_00 + 4], [3, 2, 1, 0]);
    assert_eq!(bucket_table(4)[2 * 0xa5..2 * 0xa5 + 2], [10, 5]);
}

#[test]
fn what_is_unpacked_is_what_was_packed() {
    for nbits in [1i64, 2, 4, 8] {
        let top = 1u32 << nbits;
        let buckets: Vec<u32> = (0..64u32).map(|i| (i * 37 + 11) % top).collect();
        let packed = pack_buckets(&buckets, nbits);
        assert_eq!(packed.len() as i64, 8 * nbits);
        let back = decompress_residuals(&codec(nbits), &packed, 4, 16);
        let want: Vec<i64> = buckets.iter().map(|b| *b as i64).collect();
        assert_eq!(back, want);
    }
}

#[test]
fn one_document_is_read_from_its_own_bytes() {
    let before: Vec<u32> = (0..16).map(|i| i % 4).collect();
    let here: Vec<u32> = (0..32).map(|i| (i * 3 + 1) % 4).collect();
    let behind: Vec<u32> = (0..8).map(|i| (i + 2) % 4).collect();
    let all: Vec<u32> = before.iter().chain(&here).chain(&behind).copied().collect();
    let stored = pack_buckets(&all, 2);
    let mut joined = pack_buckets(&before, 2);
    joined.extend(pack_buckets(&here, 2));
    joined.extend(pack_buckets(&behind, 2));
    assert_eq!(stored, joined);
    let own = stored[4..12].to_vec();
    let want: Vec<i64> = here.iter().map(|b| *b as i64).collect();
    assert_eq!(decompress_residuals(&codec(2), &own, 2, 16), want);
}

#[test]
fn codec_tables() {
    let c = codec(4);
    assert_eq!(c.bit_helper, vec![0, 1, 2, 3]);
    assert_eq!(c.byte_reversed_bits_map, reversal_table(4));
    assert_eq!(c.bucket_weight_indices_lookup, Some(bucket_table(4)));
    assert!(c.has_bucket_cutoffs);
    let centroids = TensorValue { device: Device::Cpu, shape: vec![], values: vec![] };
    let bare =
        ResidualCodec::load(31, &centroids, false, false, CentroidIndexConfig::Dense, false).unwrap();
    assert_eq!(bare.bucket_weight_indices_lookup, None);
    assert_eq!(bare.nbits, 31);
}
