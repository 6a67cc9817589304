use fast_plaid::config::{
    CentroidIndexConfig, ConfigError, HnswBuildParams, ParamFault, ParamValue, HNSW_PARAM_KEYS,
};

fn graph(m: u32, ef_construction: u32, ef_search: u32) -> CentroidIndexConfig {
    CentroidIndexConfig::Hnsw { params: HnswBuildParams { m, ef_construction, ef_search } }
}

#[test]
fn dense_by_default_and_by_each_of_its_names() {
    assert_eq!(CentroidIndexConfig::parse(None, None), Ok(CentroidIndexConfig::Dense));
    for kind in ["dense", "brute", "bruteforce", "brute_force", "DENSE", "Brute_Force"] {
        assert_eq!(
            CentroidIndexConfig::parse(Some(kind), Some(vec![])),
            Ok(CentroidIndexConfig::Dense)
        );
    }
    assert_eq!(CentroidIndexConfig::default(), CentroidIndexConfig::Dense);
}

#[test]
fn dense_takes_no_parameters() {
    let params = vec![("m", ParamValue::Int(8)), ("x", ParamValue::Int(1))];
    assert_eq!(
        CentroidIndexConfig::parse(Some("dense"), Some(params)),
        Err(ConfigError::DenseWithParams { count: 2 })
    );
}

#[test]
fn graph_defaults_and_names() {
    for kind in ["hnsw", "faiss_hnsw", "cagra", "HNSW"] {
        assert_eq!(CentroidIndexConfig::parse(Some(kind), None), Ok(graph(32, 40, 64)));
    }
    assert_eq!(
        HnswBuildParams::default(),
        HnswBuildParams { m: 32, ef_construction: 40, ef_search: 64 }
    );
}

#[test]
fn every_parameter_name_is_accepted() {
    assert_eq!(HNSW_PARAM_KEYS.len(), 6);
    for key in HNSW_PARAM_KEYS {
        let params = vec![(key, ParamValue::Int(7))];
        let config = CentroidIndexConfig::parse(Some("hnsw"), Some(params)).unwrap();
        assert_ne!(config, graph(32, 40, 64));
    }
    let upper = vec![("Graph_Degree", ParamValue::Int(5)), ("EF_SEARCH", ParamValue::Int(9))];
    assert_eq!(CentroidIndexConfig::parse(Some("hnsw"), Some(upper)), Ok(graph(5, 40, 9)));
}

#[test]
fn the_last_value_of_a_parameter_counts() {
    let params = vec![
        ("m", ParamValue::Int(4)),
        ("graph_degree", ParamValue::Int(6)),
        ("intermediate_graph_degree", ParamValue::Int(10)),
    ];
    assert_eq!(CentroidIndexConfig::parse(Some("hnsw"), Some(params)), Ok(graph(6, 10, 64)));
}

#[test]
fn faults_of_single_parameters() {
    let cases = vec![
        (("m", ParamValue::Int(-3)), ParamFault::Negative { value: -3 }),
        (("m", ParamValue::Int(4_294_967_296)), ParamFault::TooLarge),
        (("ef_search", ParamValue::Str("9".to_string())), ParamFault::NotInteger),
        (("build_algo", ParamValue::Int(1)), ParamFault::Retired),
        (("search_width", ParamValue::Int(1)), ParamFault::Retired),
        (("width", ParamValue::Int(1)), ParamFault::Unknown),
    ];
    for (param, fault) in cases {
        let params = vec![("m", ParamValue::Int(8)), param];
        assert_eq!(
            CentroidIndexConfig::parse(Some("hnsw"), Some(params)),
            Err(ConfigError::Param { at: 1, fault })
        );
    }
}

#[test]
fn values_out_of_range_and_unknown_kinds() {
    let parse = |key, v| {
        CentroidIndexConfig::parse(Some("hnsw"), Some(vec![(key, ParamValue::Int(v))]))
    };
    assert_eq!(parse("m", 1), Err(ConfigError::MTooSmall { m: 1 }));
    assert_eq!(
        parse("ef_construction", 0),
        Err(ConfigError::EfConstructionTooSmall { ef_construction: 0 })
    );
    assert_eq!(parse("itopk_size", 0), Err(ConfigError::EfSearchTooSmall { ef_search: 0 }));
    assert_eq!(CentroidIndexConfig::parse(Some("flat"), None), Err(ConfigError::UnknownKind));
}

#[test]
fn values_as_u32() {
    assert_eq!(ParamValue::Int(4_294_967_295).as_u32(), Ok(u32::MAX));
    assert_eq!(ParamValue::Int(0).as_u32(), Ok(0));
    assert_eq!(ParamValue::Int(-1).as_u32(), Err(ParamFault::Negative { value: -1 }));
}
