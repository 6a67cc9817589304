use fast_plaid::centroids::{
    min_padded_rows, names_search_algo, query_repeats, repeat_block, search_algo, CentroidError,
    CentroidIndex, Device, HnswCentroidState, SearchAlgoMode, TensorValue, TopkTask,
};
use fast_plaid::config::{CentroidIndexConfig, HnswBuildParams};
use fast_plaid::score::Score;

fn tensor(device: Device, shape: &[i64], values: &[f32]) -> TensorValue {
    TensorValue {
        device,
        shape: shape.to_vec(),
        values: values.iter().map(|x| Score { bits: x.to_bits() }).collect(),
    }
}

fn state() -> HnswCentroidState {
    HnswCentroidState {
        itopk_size: 4,
        dim: 2,
        n: 3,
        graph_degree: 32,
        intermediate_graph_degree: 40,
    }
}

#[test]
fn search_modes() {
    assert_eq!(search_algo(None), SearchAlgoMode::Auto);
    for text in ["", "auto", "AUTO", "fast"] {
        assert_eq!(search_algo(Some(text)), SearchAlgoMode::Auto);
    }
    assert_eq!(search_algo(Some("Single")), SearchAlgoMode::SingleCta);
    assert_eq!(search_algo(Some("single_cta")), SearchAlgoMode::SingleCta);
    assert_eq!(search_algo(Some("multi")), SearchAlgoMode::MultiCta);
    assert_eq!(search_algo(Some("MULTI_CTA")), SearchAlgoMode::MultiCta);
    assert_eq!(search_algo(Some("multi_tuned")), SearchAlgoMode::MultiCtaTuned);
    assert!(names_search_algo("") && names_search_algo("Auto") && names_search_algo("multi"));
    assert!(!names_search_algo("fast"));
}

#[test]
fn padding_settings() {
    assert_eq!(min_padded_rows(None), 256);
    assert_eq!(min_padded_rows(Some("12")), 12);
    assert_eq!(min_padded_rows(Some("+12")), 12);
    for text in ["0", "-1", "", "x", "99999999999999999999999"] {
        assert_eq!(min_padded_rows(Some(text)), 256);
    }
}

#[test]
fn blocks_are_repeated() {
    assert_eq!(query_repeats(3, 8), 3);
    assert_eq!(query_repeats(4, 8), 2);
    assert_eq!(query_repeats(8, 8), 1);
    assert_eq!(query_repeats(9, 8), 1);
    assert_eq!(query_repeats(1, usize::MAX), 1);
    let block = tensor(Device::Cpu, &[2], &[1.0, 2.0]).values;
    let many = repeat_block(&block, 3);
    assert_eq!(many.len(), 6);
    for i in 0..6 {
        assert_eq!(many[i], block[i % 2]);
    }
}

#[test]
fn graphs_are_built() {
    let params = HnswBuildParams { m: 8, ef_construction: 9, ef_search: 0 };
    let good = tensor(Device::Cuda(0), &[3, 2], &[0.0; 6]);
    assert_eq!(
        HnswCentroidState::build_centroids(&good, &params),
        Ok(HnswCentroidState {
            itopk_size: 1,
            dim: 2,
            n: 3,
            graph_degree: 8,
            intermediate_graph_degree: 9
        })
    );
}

#[test]
fn graphs_are_refused() {
    let params = HnswBuildParams::default();
    let build = |t| HnswCentroidState::build_centroids(&t, &params);
    let cpu = Device::Cpu;
    assert_eq!(
        build(tensor(Device::Cuda(1), &[3], &[])),
        Err(CentroidError::WrongDevice(1))
    );
    assert_eq!(build(tensor(cpu, &[3], &[])), Err(CentroidError::BadCentroidShape));
    assert_eq!(build(tensor(cpu, &[-3, 2], &[])), Err(CentroidError::CentroidCountOutOfRange));
    assert_eq!(build(tensor(cpu, &[3, -2], &[])), Err(CentroidError::DimOutOfRange));
    assert_eq!(build(tensor(cpu, &[0, 2], &[])), Err(CentroidError::EmptyCentroids));
    assert_eq!(build(tensor(cpu, &[3, 0], &[])), Err(CentroidError::EmptyCentroids));
    assert_eq!(build(tensor(cpu, &[1, 1], &[f32::NAN])), Err(CentroidError::NotFinite));
    assert_eq!(
        build(tensor(cpu, &[i64::MAX, 4], &[])),
        Err(CentroidError::TooManyEntries)
    );
}

#[test]
fn indexes_are_built_as_configured() {
    let t = tensor(Device::Cpu, &[3, 2], &[0.0; 6]);
    let graph = CentroidIndexConfig::Hnsw { params: HnswBuildParams::default() };
    assert_eq!(
        CentroidIndex::build(CentroidIndexConfig::Dense, &t, false),
        Ok(CentroidIndex::dense())
    );
    assert_eq!(CentroidIndex::build(graph, &t, false), Err(CentroidError::GraphUnavailable));
    assert!(matches!(
        CentroidIndex::build(graph, &t, true),
        Ok(CentroidIndex::Hnsw { hnsw: HnswCentroidState { n: 3, dim: 2, itopk_size: 64, .. } })
    ));
}

#[test]
fn searches_are_planned() {
    let queries = tensor(Device::Cpu, &[2, 2], &[1.0, 2.0, 3.0, 4.0]);
    let plan = state().topk_centroids(3, &queries, 7, Some("multi"), Some("5")).ok().unwrap();
    assert_eq!((plan.k, plan.rows, plan.search_rows, plan.itopk_size), (3, 2, 6, 4));
    assert_eq!(plan.algo, SearchAlgoMode::MultiCta);
    assert_eq!(plan.queries.len(), 12);
    assert_eq!(plan.queries[4..8], queries.values[..]);
    let neighbors: Vec<u32> = (0..18).collect();
    assert_eq!(plan.neighbor_ids(&neighbors), vec![0, 1, 2, 3, 4, 5]);
    let one = state().topk_centroids(3, &queries, -2, None, Some("2")).ok().unwrap();
    assert_eq!((one.k, one.search_rows), (1, 2));
}

#[test]
fn searches_are_refused() {
    let search = |t: TensorValue, n| state().topk_centroids(n, &t, 1, None, None).err();
    let cpu = Device::Cpu;
    assert_eq!(
        search(tensor(Device::Cuda(2), &[1, 2], &[0.0; 2]), 3),
        Some(CentroidError::WrongDevice(2))
    );
    assert_eq!(search(tensor(cpu, &[2], &[0.0; 2]), 3), Some(CentroidError::BadQueryShape));
    assert_eq!(search(tensor(cpu, &[1, 3], &[0.0; 3]), 3), Some(CentroidError::DimMismatch));
    assert_eq!(search(tensor(cpu, &[1, 2], &[0.0; 2]), 4), Some(CentroidError::SizeMismatch));
    assert_eq!(search(tensor(cpu, &[1, 2], &[0.0, f32::NAN]), 3), Some(CentroidError::NotFinite));
    let many = tensor(cpu, &[4, 2], &[0.0; 8]);
    assert_eq!(
        state().topk_centroids(3, &many, 1, None, Some("18446744073709551615")).err(),
        Some(CentroidError::TooManyQueries)
    );
    let wide = HnswCentroidState { dim: 3, ..state() };
    assert_eq!(
        wide.topk_centroids(
            3,
            &tensor(cpu, &[1, 3], &[0.0; 3]),
            1,
            None,
            Some("9223372036854775807")
        )
        .err(),
        Some(CentroidError::QueryBufferTooLarge)
    );
}

#[test]
fn faults_come_before_the_number_of_queries() {
    let none = |device, dim| tensor(device, &[0, dim], &[]);
    let search = |t: TensorValue, n| {
        let found = state().find_query_fault(n, &t);
        assert_eq!(state().topk_centroids(n, &t, 1, None, None).err(), found);
        found
    };
    assert_eq!(search(none(Device::Cuda(1), 2), 3), Some(CentroidError::WrongDevice(1)));
    assert_eq!(search(none(Device::Cpu, 5), 3), Some(CentroidError::DimMismatch));
    assert_eq!(search(none(Device::Cpu, 2), 7), Some(CentroidError::SizeMismatch));
    assert_eq!(state().find_query_fault(3, &none(Device::Cpu, 2)), None);
    let graph = CentroidIndex::Hnsw { hnsw: state() };
    assert_eq!(
        graph.topk(7, &none(Device::Cpu, 2), 1, None, None).err(),
        Some(CentroidError::SizeMismatch)
    );
}

#[test]
fn either_index_finds_cells() {
    let queries = tensor(Device::Cpu, &[1, 2], &[1.0, 2.0]);
    assert!(matches!(
        CentroidIndex::Dense.topk(3, &queries, 7, None, None),
        Ok(TopkTask::Dense { k: 7 })
    ));
    let graph = CentroidIndex::Hnsw { hnsw: state() };
    assert!(matches!(graph.topk(3, &queries, 2, None, None), Ok(TopkTask::Graph(_))));
    assert!(matches!(
        graph.topk(9, &queries, 2, None, None),
        Err(CentroidError::SizeMismatch)
    ));
}

#[test]
fn chosen_candidates_stand_for_cells() {
    // Two ranks for three queries.
    let ids = CentroidIndex::masked_topk(&vec![10, 20, 30], &vec![0, 1, 2, 2, 0, 1], 2, 3);
    assert_eq!(ids, vec![10, 30, 20, 10, 30, 20]);
}
