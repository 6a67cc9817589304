use fast_plaid::centroids::{Device, TensorValue};
use fast_plaid::codec::ResidualCodec;
use fast_plaid::config::CentroidIndexConfig;
use fast_plaid::ivf::build_ivf;
use fast_plaid::packing::pack_buckets;
use fast_plaid::pipeline::{
    check_queries, query_subset, search_many, search_many_with_token_scores, Search,
};
use fast_plaid::score::{ensure_tensor_all_finite, FiniteError, Score};
use fast_plaid::search::{
    choose_cells, filter_passage_ids_with_subset, gather_candidates, prune_candidates,
    rank_scores, select_results, CellTask, LoadedIndex, SearchError, SearchOutcome,
    SearchParameters, SearchTask, TokenMatrix,
};
use fast_plaid::strided::{check_ids, copy_ids, StridedTensor};

fn score(x: f32) -> Score {
    Score { bits: x.to_bits() }
}

fn scores(xs: &[f32]) -> Vec<Score> {
    xs.iter().map(|x| score(*x)).collect()
}

// Documents of two, one, no and two tokens, of dimension eight and two bits.
fn index(weights: bool, ivf: bool) -> LoadedIndex {
    let codes = vec![0, 1, 1, 2, 0];
    let lens = vec![2, 1, 0, 2];
    let (lists, lengths) = build_ivf(&codes, &lens, 4);
    let buckets: Vec<u32> = (0..40).map(|i| i % 4).collect();
    let centroids = TensorValue { device: Device::Cpu, shape: vec![4, 8], values: vec![] };
    let codec =
        ResidualCodec::load(2, &centroids, true, weights, CentroidIndexConfig::Dense, false)
            .unwrap();
    let ivf = if ivf { Some((lists, lengths)) } else { None };
    LoadedIndex::new(codec, codes, pack_buckets(&buckets, 2), lens, 2, ivf).unwrap()
}

#[test]
fn indexes_are_put_together() {
    let ix = index(true, true);
    assert!(ix.can_decode(8) && !ix.can_decode(4) && !ix.can_decode(9));
    assert!(index(false, true).can_decode(9));
    let make = |codes, residuals, lens, ivf| {
        LoadedIndex::new(index(true, true).codec, codes, residuals, lens, 1, ivf).is_some()
    };
    assert!(make(vec![0, 1], vec![7, 7], vec![2], None));
    assert!(!make(vec![0], vec![7, 7], vec![2], None));
    assert!(!make(vec![0, 1], vec![7], vec![2], None));
    assert!(!make(vec![0, 1], vec![7, 7], vec![3, -1], None));
    assert!(make(vec![0, 1], vec![7, 7], vec![2], Some((vec![0], vec![1]))));
    assert!(!make(vec![0, 1], vec![7, 7], vec![2], Some((vec![1], vec![1]))));
    assert!(!make(vec![0, 1], vec![7, 7], vec![2], Some((vec![0], vec![2]))));
    assert!(check_ids(&vec![0, 3], 4) && !check_ids(&vec![0, 4], 4) && !check_ids(&vec![-1], 4));
    assert_eq!(copy_ids(&vec![3, 1]), vec![3, 1]);
}

#[test]
fn scores_are_ordered() {
    let order = rank_scores(&scores(&[
        -1.5,
        0.0,
        f32::NAN,
        -0.0,
        2.5,
        f32::INFINITY,
        f32::NEG_INFINITY,
        1e-40,
    ]));
    assert_eq!(order, vec![2, 5, 4, 7, 1, 3, 0, 6]);
    assert_eq!(Score::zero(), score(0.0));
}

#[test]
fn values_that_are_not_finite_are_refused() {
    assert_eq!(ensure_tensor_all_finite(&scores(&[])), Ok(()));
    assert_eq!(ensure_tensor_all_finite(&scores(&[0.0, -3.4e38, 1e-45])), Ok(()));
    for bad in [f32::NAN, -f32::NAN, f32::INFINITY, f32::NEG_INFINITY] {
        assert_eq!(ensure_tensor_all_finite(&scores(&[1.0, bad])), Err(FiniteError::NanOrInf));
    }
}

#[test]
fn cells_to_choose_from() {
    let ix = index(true, true);
    let probe = |subset| choose_cells(&ix.doc_codes_strided, 2, &subset);
    assert!(matches!(probe(None), CellTask::Nearest { k: 2 }));
    match probe(Some(vec![3, 0])) {
        CellTask::NearestAmong { cells, k } => assert_eq!((cells, k), (vec![0, 1, 2], 2)),
        _ => panic!("cells expected"),
    }
    match probe(Some(vec![1])) {
        CellTask::NearestAmong { cells, k } => assert_eq!((cells, k), (vec![1], 1)),
        _ => panic!("cells expected"),
    }
    assert!(matches!(probe(Some(vec![2])), CellTask::NoCells));
    assert!(matches!(probe(Some(vec![])), CellTask::NoCells));
}

#[test]
fn candidates_have_a_token_in_a_probed_cell() {
    let ix = index(true, true);
    let ivf = ix.ivf_index_strided.as_ref().unwrap();
    assert_eq!(gather_candidates(ivf, &vec![2, 1, 2], &None), vec![0, 1, 3]);
    assert_eq!(gather_candidates(ivf, &vec![0], &None), vec![0, 3]);
    assert_eq!(gather_candidates(ivf, &vec![3], &None), Vec::<i64>::new());
    assert_eq!(gather_candidates(ivf, &vec![0, 1], &Some(vec![3, 2, 3])), vec![3]);
    assert_eq!(filter_passage_ids_with_subset(&vec![1, 4, 6], &vec![6, 0, 1, 6]), vec![1, 6]);
    assert_eq!(filter_passage_ids_with_subset(&vec![1, 4], &vec![]), Vec::<i64>::new());
}

#[test]
fn pruning_keeps_the_asked_number() {
    let pids: Vec<i64> = (10..20).collect();
    let s = scores(&[0.1, 0.9, 0.3, 0.8, 0.2, 0.7, 0.4, 0.6, 0.5, 0.0]);
    assert_eq!(prune_candidates(&pids, &s, 2), vec![11, 13]);
    assert_eq!(prune_candidates(&pids, &s, 1), vec![11]);
    assert_eq!(prune_candidates(&pids, &s, 3), vec![11, 13, 15]);
    assert_eq!(prune_candidates(&pids, &s, 9), vec![11, 13, 15, 17, 18, 16, 12, 14, 10]);
    assert_eq!(prune_candidates(&pids, &s, 10), pids);
    assert_eq!(prune_candidates(&pids, &s, 40), pids);
    assert_eq!(prune_candidates(&pids, &s, 0), Vec::<i64>::new());
}

#[test]
fn the_best_are_selected() {
    let o = select_results(&vec![5, 6, 7], &vec![2, 3, 4], &scores(&[0.5, 2.0, 1.0]), 2, true);
    assert_eq!(o.passage_ids, vec![6, 7]);
    assert_eq!(o.scores, scores(&[2.0, 1.0]));
    assert_eq!(
        o.token_matrices,
        Some(vec![TokenMatrix { place: 1, doc_len: 3 }, TokenMatrix { place: 2, doc_len: 4 }])
    );
    let all = select_results(&vec![5, 6], &vec![2, 3], &scores(&[0.5, 2.0]), 9, false);
    assert_eq!(all.passage_ids, vec![6, 5]);
    assert_eq!(all.token_matrices, None);
}

#[test]
fn a_whole_search() {
    let ix = index(true, true);
    let params = SearchParameters::new(2, 16, 2, 3);
    let (mut search, task) = Search::begin(&ix, params, 8, None, true);
    assert!(matches!(task, CellTask::Nearest { k: 3 }));
    match search.on_cells(&ix, &vec![0, 1, 1]) {
        Ok(SearchTask::ScoreByCells { codes, lengths }) => {
            assert_eq!((codes, lengths), (vec![0, 1, 1], vec![2, 1]));
        }
        _ => panic!("a batch expected"),
    }
    match search.on_scores(&ix, &scores(&[0.5, 0.25])) {
        Ok(SearchTask::ScoreByCells { codes, lengths }) => {
            assert_eq!((codes, lengths), (vec![2, 0], vec![2]));
        }
        _ => panic!("a batch expected"),
    }
    match search.on_scores(&ix, &scores(&[0.75])) {
        Ok(SearchTask::ScoreExactly { codes, lengths, buckets }) => {
            assert_eq!(codes, vec![0, 1, 1, 2, 0]);
            assert_eq!(lengths, vec![2, 1, 2]);
            let want: Vec<i64> = (0..40).map(|i| i % 4).collect();
            assert_eq!(buckets, want);
        }
        _ => panic!("exact scoring expected"),
    }
    assert_eq!(search.rerank_count(), 3);
    let o = search.on_exact(&ix, &scores(&[1.0, 3.0, 2.0]));
    assert_eq!(o.passage_ids, vec![1, 3]);
    assert_eq!(o.scores, scores(&[3.0, 2.0]));
    assert_eq!(
        o.token_matrices,
        Some(vec![TokenMatrix { place: 1, doc_len: 1 }, TokenMatrix { place: 2, doc_len: 2 }])
    );
}

#[test]
fn candidates_are_pruned_before_exact_scores() {
    let ix = index(true, true);
    let (mut search, _) = Search::begin(&ix, SearchParameters::new(9, 2, 5, 1), 8, None, false);
    search.on_cells(&ix, &vec![0, 1, 2]).map_err(|_| ()).unwrap();
    match search.on_scores(&ix, &scores(&[0.5, 0.25, 0.75])) {
        Ok(SearchTask::ScoreExactly { codes, lengths, .. }) => {
            assert_eq!((codes, lengths), (vec![2, 0, 0, 1], vec![2, 2]));
        }
        _ => panic!("exact scoring expected"),
    }
    let o = search.on_exact(&ix, &scores(&[8.0, 9.0]));
    assert_eq!((o.passage_ids, o.token_matrices), (vec![0, 3], None));
}

// What is handed out for each document: its codes and its bucket numbers.
fn handed_out(ix: &LoadedIndex, n_full: usize, approx: &[f32]) -> Vec<(Vec<i64>, Vec<i64>)> {
    let params = SearchParameters::new(9, n_full, 5, 1);
    let (mut search, _) = Search::begin(ix, params, 8, None, false);
    search.on_cells(ix, &vec![0, 1, 2]).map_err(|_| ()).unwrap();
    match search.on_scores(ix, &scores(approx)) {
        Ok(SearchTask::ScoreExactly { codes, lengths, buckets }) => {
            let mut at = 0;
            lengths
                .iter()
                .map(|n| {
                    let (a, b) = (at, at + *n as usize);
                    at = b;
                    (codes[a..b].to_vec(), buckets[8 * a..8 * b].to_vec())
                })
                .collect()
        }
        _ => panic!("exact scoring expected"),
    }
}

#[test]
fn documents_are_scored_by_themselves() {
    let ix = index(true, true);
    let all = handed_out(&ix, 3, &[0.5, 0.25, 0.75]);
    assert_eq!(all[0].0, vec![0, 1]);
    assert_eq!(all[1].0, vec![1]);
    assert_eq!(all[2].0, vec![2, 0]);
    let two = handed_out(&ix, 2, &[0.5, 0.25, 0.75]);
    assert_eq!(two, vec![all[2].clone(), all[0].clone()]);
    assert_eq!(handed_out(&ix, 1, &[0.5, 0.75, 0.25]), vec![all[1].clone()]);
}

#[test]
fn subsets_are_sets() {
    let ix = index(true, true);
    let ivf = ix.ivf_index_strided.as_ref().unwrap();
    let cells = |subset| match choose_cells(&ix.doc_codes_strided, 5, &Some(subset)) {
        CellTask::NearestAmong { cells, k } => (cells, k),
        _ => panic!("cells expected"),
    };
    assert_eq!(cells(vec![3, 1, 3, 2]), cells(vec![1, 2, 3]));
    assert_eq!(cells(vec![1, 2, 3]), (vec![0, 1, 2], 3));
    let found = |subset| gather_candidates(ivf, &vec![0, 1], &Some(subset));
    assert_eq!(found(vec![3, 1, 3, 2]), found(vec![1, 2, 3]));
    assert_eq!(found(vec![1, 2, 3]), vec![1, 3]);
}

#[test]
fn fewer_results_come_first() {
    let select = |top_k| {
        let exact = scores(&[0.5, 2.0, 1.0, 2.0]);
        select_results(&vec![5, 6, 7, 8], &vec![2, 3, 4, 5], &exact, top_k, true)
    };
    let all = select(9);
    assert_eq!(all.passage_ids, vec![6, 8, 7, 5]);
    for k in 0..5 {
        let few = select(k);
        assert_eq!(few.passage_ids, all.passage_ids[..k]);
        assert_eq!(few.scores, all.scores[..k]);
        assert_eq!(few.token_matrices.unwrap(), all.token_matrices.as_ref().unwrap()[..k]);
    }
}

#[test]
fn searches_that_end_early() {
    let ix = index(true, true);
    let params = SearchParameters::new(2, 16, 2, 3);
    let (mut none, task) = Search::begin(&ix, params, 8, Some(vec![2]), true);
    assert!(matches!(task, CellTask::NoCells));
    match none.on_cells(&ix, &vec![]) {
        Ok(SearchTask::Finish(o)) => {
            assert_eq!((o.passage_ids.len(), o.scores.len(), o.token_matrices), (0, 0, None));
        }
        _ => panic!("an empty outcome expected"),
    }
    let (mut zero, _) =
        Search::begin(&ix, SearchParameters::new(9, 0, 5, 1), 8, None, false);
    zero.on_cells(&ix, &vec![0]).map_err(|_| ()).unwrap();
    match zero.on_scores(&ix, &scores(&[1.0, 2.0])) {
        Ok(SearchTask::Finish(o)) => assert_eq!(o.passage_ids.len(), 0),
        _ => panic!("an empty outcome expected"),
    }
}

#[test]
fn documents_without_tokens_score_zero() {
    let mut ix = index(true, true);
    ix.ivf_index_strided = StridedTensor::new(vec![2, 3], vec![2], 1);
    let (mut search, _) = Search::begin(&ix, SearchParameters::new(1, 16, 5, 1), 8, None, false);
    match search.on_cells(&ix, &vec![0]) {
        Ok(SearchTask::ScoreByCells { codes, .. }) => assert_eq!(codes, vec![2, 0]),
        _ => panic!("a batch expected"),
    }
    match search.on_scores(&ix, &scores(&[-1.0])) {
        Ok(SearchTask::ScoreExactly { codes, lengths, .. }) => {
            assert_eq!((codes, lengths), (vec![2, 0], vec![0, 2]));
        }
        _ => panic!("exact scoring expected"),
    }
}

#[test]
fn searches_that_fail() {
    let params = SearchParameters::new(9, 16, 2, 3);
    let bare = index(true, false);
    let (mut search, _) = Search::begin(&bare, params, 8, None, false);
    assert!(matches!(search.on_cells(&bare, &vec![]), Err(SearchError::NotSearchable)));
    let ix = index(true, true);
    let (mut search, _) = Search::begin(&ix, params, 8, None, false);
    search.on_cells(&ix, &vec![0]).map_err(|_| ()).unwrap();
    assert!(matches!(
        search.on_scores(&ix, &scores(&[1.0])),
        Err(SearchError::CountMismatch { passages: 2, scores: 1 })
    ));
    let unweighted = index(false, true);
    let (mut search, _) = Search::begin(&unweighted, params, 8, None, false);
    search.on_cells(&unweighted, &vec![0]).map_err(|_| ()).unwrap();
    assert!(matches!(
        search.on_scores(&unweighted, &scores(&[1.0, 2.0])),
        Err(SearchError::MissingBucketWeights)
    ));
}

#[test]
fn queries_are_checked() {
    let ix = index(true, true);
    assert_eq!(check_queries(&ix, &vec![3, 32, 8]), Ok((3, 8)));
    assert_eq!(check_queries(&ix, &vec![32, 8]), Err(SearchError::BadQueryShape));
    assert_eq!(
        check_queries(&index(true, false), &vec![32, 8]),
        Err(SearchError::NotSearchable)
    );
    let subset = Some(vec![vec![4, 2], vec![]]);
    assert_eq!(query_subset(&subset, 0), Some(vec![4, 2]));
    assert_eq!(query_subset(&subset, 1), Some(vec![]));
    assert_eq!(query_subset(&subset, 2), None);
    assert_eq!(query_subset(&None, 0), None);
}

fn found(p: i64, tokens: bool) -> Result<SearchOutcome, SearchError> {
    Ok(SearchOutcome {
        passage_ids: vec![p],
        scores: scores(&[1.5]),
        token_matrices: if tokens { Some(vec![TokenMatrix { place: 0, doc_len: 4 }]) } else { None },
    })
}

#[test]
fn a_failed_search_does_not_stop_the_others() {
    let all = search_many(vec![found(7, false), Err(SearchError::OutsideFailure), found(9, false)]);
    let ids: Vec<usize> = all.iter().map(|q| q.query_id).collect();
    assert_eq!(ids, vec![0, 1, 2]);
    assert_eq!((&all[0].passage_ids, &all[0].scores), (&vec![7], &scores(&[1.5])));
    assert_eq!((all[1].passage_ids.len(), all[1].scores.len()), (0, 0));
    assert_eq!(all[2].passage_ids, vec![9]);
    assert_eq!(search_many(vec![]).len(), 0);
}

#[test]
fn token_scores_go_with_the_results() {
    let all = search_many_with_token_scores(vec![
        Err(SearchError::MissingBucketWeights),
        found(7, true),
        found(8, false),
    ]);
    assert_eq!((all[0].query_id, all[0].token_scores_inner.len()), (0, 0));
    assert_eq!(all[0].passage_ids.len(), 0);
    assert_eq!(all[1].token_scores_inner, vec![TokenMatrix { place: 0, doc_len: 4 }]);
    assert_eq!((all[2].query_id, all[2].token_scores_inner.len()), (2, 0));
    assert_eq!(all[2].passage_ids, vec![8]);
}

#[test]
fn token_scores_change_neither_passages_nor_scores() {
    let ix = index(true, true);
    let run = |top_k, cells: &Vec<i64>, tokens| {
        let params = SearchParameters::new(2, 16, top_k, 3);
        let (mut search, _) = Search::begin(&ix, params, 8, None, tokens);
        let mut task = search.on_cells(&ix, cells);
        loop {
            task = match task {
                Ok(SearchTask::ScoreByCells { lengths, .. }) => {
                    search.on_scores(&ix, &scores(&vec![0.5; lengths.len()]))
                }
                Ok(SearchTask::ScoreExactly { lengths, .. }) => {
                    let exact: Vec<f32> = (0..lengths.len()).map(|i| (i * i) as f32).collect();
                    return Ok(search.on_exact(&ix, &scores(&exact)));
                }
                Ok(SearchTask::Finish(o)) => return Ok(o),
                Err(e) => return Err(e),
            };
        }
    };
    let runs = |tokens| {
        vec![
            run(2, &vec![0, 1, 2], tokens),
            run(5, &vec![3], tokens),
            run(5, &vec![1], tokens),
            Err(SearchError::OutsideFailure),
        ]
    };
    let plain = search_many(runs(false));
    let full = search_many_with_token_scores(runs(true));
    assert_eq!(plain.len(), full.len());
    let lens = [2i64, 1, 0, 2];
    for (q, t) in plain.iter().zip(&full) {
        assert_eq!(q.query_id, t.query_id);
        assert_eq!((&q.passage_ids, &q.scores), (&t.passage_ids, &t.scores));
        assert_eq!(t.token_scores_inner.len(), t.passage_ids.len());
        for (m, p) in t.token_scores_inner.iter().zip(&t.passage_ids) {
            assert_eq!(m.doc_len, lens[*p as usize]);
        }
    }
    assert_eq!(plain[0].passage_ids, vec![3, 1]);
    assert_eq!(plain[1].passage_ids, Vec::<i64>::new());
    assert_eq!(plain[2].passage_ids, vec![1, 0]);
}
