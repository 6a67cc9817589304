use fast_plaid::anchors::{
    assign_tokens, default_n_anchors, document_of, find_training_fault, note_tokens,
    pad_token_batch_along_rows, parse_empty_handling, search_settings, token_batches,
    token_sampling_plan, total_tokens, AnchorError, AnchorTraining, AnchorUpdate, EmptyHandling,
    TokenRow,
};
use fast_plaid::centroids::SearchAlgoMode;
use fast_plaid::sampling::RowSlice;
use fast_plaid::score::Score;
use rand::rngs::StdRng;
use rand::{Rng, SeedableRng};

fn shapes(rows: &[i64]) -> Vec<Vec<i64>> {
    rows.iter().map(|r| vec![*r, 8]).collect()
}

#[test]
fn policies() {
    assert_eq!(parse_empty_handling("sticky"), Ok(EmptyHandling::Sticky));
    assert_eq!(parse_empty_handling("  ReSeed\n"), Ok(EmptyHandling::Reseed));
    assert_eq!(parse_empty_handling("\u{3000}PRUNE"), Ok(EmptyHandling::Prune));
    assert_eq!(parse_empty_handling("drop"), Err(AnchorError::UnknownEmptyHandling));
    assert_eq!(parse_empty_handling("pru ne"), Err(AnchorError::UnknownEmptyHandling));
}

#[test]
fn token_totals() {
    assert_eq!(total_tokens(&shapes(&[3, 0, 4])), Ok(7));
    assert_eq!(total_tokens(&vec![]), Ok(0));
    let odd = vec![vec![1, 8], vec![1, 2, 3], vec![1]];
    assert_eq!(total_tokens(&odd), Err(AnchorError::NotMatrix(1)));
    assert_eq!(default_n_anchors(0), 1);
    assert_eq!(default_n_anchors(79), 1);
    assert_eq!(default_n_anchors(80), 2);
    assert_eq!(default_n_anchors(1_000_000), 25_000);
}

#[test]
fn every_token_belongs_to_its_document() {
    let plan = token_sampling_plan(&shapes(&[2, 0, 3, 1])).ok().unwrap();
    assert_eq!(plan.lens, vec![2, 0, 3, 1]);
    assert_eq!(plan.cum, vec![2, 2, 5, 6]);
    assert_eq!((plan.running, plan.dim), (6, 8));
    let docs: Vec<usize> = (0..6).map(|t| document_of(&plan, t)).collect();
    assert_eq!(docs, vec![0, 0, 2, 2, 2, 3]);
    assert_eq!(token_sampling_plan(&vec![]).err(), Some(AnchorError::NoDocuments));
    assert_eq!(token_sampling_plan(&shapes(&[0, 0])).err(), Some(AnchorError::NoTokens));
}

#[test]
fn tokens_are_cut_and_gathered() {
    let slice = |place, start, rows| RowSlice { place, start, rows };
    let (pieces, batches) = token_batches(&vec![5, 0, 1, 3], 4);
    assert_eq!(pieces, vec![slice(0, 0, 4), slice(0, 4, 1), slice(2, 0, 1), slice(3, 0, 3)]);
    assert_eq!(batches, vec![(0, 1), (1, 4)]);
    let (singles, each) = token_batches(&vec![2], 0);
    assert_eq!(singles, vec![slice(0, 0, 1), slice(0, 1, 1)]);
    assert_eq!(each, vec![(0, 1), (1, 2)]);
    assert_eq!(token_batches(&vec![2], usize::MAX).0, singles);
    assert_eq!(token_batches(&vec![], 3), (vec![], vec![]));
}

#[test]
fn small_batches_are_padded() {
    let batch: Vec<Score> = (0..6).map(|i| Score { bits: i }).collect();
    let (padded, rows, searched) = pad_token_batch_along_rows(&batch, 3, 7);
    assert_eq!((padded.len(), rows, searched), (18, 3, 9));
    for i in 0..18 {
        assert_eq!(padded[i], batch[i % 6]);
    }
    assert_eq!(pad_token_batch_along_rows(&batch, 3, 3), (batch.clone(), 3, 3));
    assert_eq!(pad_token_batch_along_rows(&vec![], 0, 3), (vec![], 0, 0));
    assert_eq!(search_settings(0, Some("single")), (1, SearchAlgoMode::SingleCta));
    assert_eq!(search_settings(64, None), (64, SearchAlgoMode::Auto));
}

#[test]
fn neighbors_must_exist() {
    assert_eq!(assign_tokens(&vec![2, 0, 9], 2, 3), Ok(vec![2, 0]));
    assert_eq!(
        assign_tokens(&vec![2, 3, 4], 3, 3),
        Err(AnchorError::NeighborOutOfRange { row: 1, id: 3 })
    );
    let mut assigned = vec![false, true, false];
    note_tokens(&mut assigned, &vec![2, 2]);
    assert_eq!(assigned, vec![false, true, true]);
}

fn begin(
    rows: &[i64],
    n: Option<usize>,
    seed: Option<u64>,
    policy: Option<&str>,
) -> Result<(AnchorTraining, Vec<TokenRow>), AnchorError> {
    AnchorTraining::begin(&shapes(rows), n, seed, policy, true)
}

#[test]
fn training_begins_with_sampled_rows() {
    let lens = [3i64, 0, 50, 7];
    let (training, rows) = begin(&lens, Some(40), Some(5), None).ok().unwrap();
    assert_eq!((training.anchor_count(), rows.len()), (40, 40));
    for r in &rows {
        assert!(0 <= r.row && r.row < lens[r.doc]);
    }
    assert!(rows.iter().any(|r| r.row != rows[0].row));
    assert_eq!(rows, begin(&lens, Some(40), Some(5), None).ok().unwrap().1);
    assert_ne!(rows, begin(&lens, Some(40), Some(6), None).ok().unwrap().1);
    assert_ne!(rows, begin(&lens, Some(40), None, None).ok().unwrap().1);
    assert_eq!(begin(&[400], None, Some(5), None).ok().unwrap().1.len(), 10);
    let (pieces, batches) = training.batches(100);
    assert_eq!((pieces.len(), batches), (3, vec![(0, 3)]));
}

#[test]
fn rows_are_those_that_the_seeded_generator_draws() {
    let lens = [3i64, 0, 50, 7];
    let mut rng = StdRng::seed_from_u64(11);
    let mut draw = |n: usize| -> Vec<TokenRow> {
        (0..n)
            .map(|_| {
                let token = rng.random_range(0i64..60);
                let doc: usize = match token {
                    0..=2 => 0,
                    3..=52 => 2,
                    _ => 3,
                };
                TokenRow { doc, row: rng.random_range(0..lens[doc]) }
            })
            .collect()
    };
    let (mut training, rows) = begin(&lens, Some(6), Some(11), Some("reseed")).ok().unwrap();
    assert_eq!(rows, draw(6));
    let mut reseeded = |assigned: Vec<bool>| match training.end_iteration(&assigned) {
        Ok(AnchorUpdate::Reseed { empty, rows }) => (empty, rows),
        _ => panic!("new rows expected"),
    };
    let none: Vec<TokenRow> = Vec::new();
    assert_eq!(reseeded(vec![true, false, true, false, true, false]), (vec![1, 3, 5], draw(3)));
    assert_eq!(reseeded(vec![false, true, true, true, true, true]), (vec![0], draw(1)));
    assert_eq!(draw(0), none);
}

#[test]
fn faults_come_before_the_number_of_anchors() {
    let fault = |shapes: &Vec<Vec<i64>>, policy, graph| {
        let found = find_training_fault(shapes, policy, graph);
        assert_eq!(AnchorTraining::begin(shapes, Some(0), None, policy, graph).err(), found);
        found
    };
    assert_eq!(fault(&shapes(&[3]), None, false), Some(AnchorError::GraphUnavailable));
    let flat = vec![vec![1, 8], vec![4]];
    assert_eq!(fault(&flat, Some("x"), true), Some(AnchorError::NotMatrix(1)));
    assert_eq!(fault(&shapes(&[3]), Some("x"), true), Some(AnchorError::UnknownEmptyHandling));
    assert_eq!(fault(&vec![], Some("prune"), true), Some(AnchorError::NoDocuments));
    assert_eq!(fault(&shapes(&[0, 0]), None, true), Some(AnchorError::NoTokens));
    assert_eq!(find_training_fault(&shapes(&[3]), Some("Sticky"), true), None);
}

#[test]
fn training_that_cannot_begin() {
    let fault = |shapes: &Vec<Vec<i64>>, policy, graph| {
        AnchorTraining::begin(shapes, None, None, policy, graph).err()
    };
    let good = shapes(&[3]);
    assert_eq!(fault(&good, None, false), Some(AnchorError::GraphUnavailable));
    assert_eq!(fault(&vec![vec![3]], Some("x"), true), Some(AnchorError::NotMatrix(0)));
    assert_eq!(fault(&good, Some("x"), true), Some(AnchorError::UnknownEmptyHandling));
    assert_eq!(fault(&vec![], None, true), Some(AnchorError::NoDocuments));
    assert_eq!(fault(&shapes(&[0]), None, true), Some(AnchorError::NoTokens));
}

#[test]
fn anchors_without_tokens() {
    let assigned = vec![true, false, true, false];
    let (mut sticky, _) = begin(&[9], Some(4), Some(1), Some("sticky")).ok().unwrap();
    assert!(matches!(sticky.end_iteration(&assigned), Ok(AnchorUpdate::Keep)));
    assert_eq!(sticky.anchor_count(), 4);

    let (mut reseed, _) = begin(&[9], Some(4), Some(1), Some("reseed")).ok().unwrap();
    match reseed.end_iteration(&assigned) {
        Ok(AnchorUpdate::Reseed { empty, rows }) => {
            assert_eq!((empty, rows.len()), (vec![1, 3], 2));
            assert!(rows.iter().all(|r| r.doc == 0 && 0 <= r.row && r.row < 9));
        }
        _ => panic!("new rows expected"),
    }
    assert_eq!(reseed.anchor_count(), 4);

    let (mut prune, _) = begin(&[9], Some(4), Some(1), Some("prune")).ok().unwrap();
    match prune.end_iteration(&assigned) {
        Ok(AnchorUpdate::Prune { kept }) => assert_eq!(kept, vec![0, 2]),
        _ => panic!("fewer anchors expected"),
    }
    assert_eq!(prune.anchor_count(), 2);
    assert!(matches!(prune.end_iteration(&vec![true, true]), Ok(AnchorUpdate::Keep)));
    assert!(matches!(prune.end_iteration(&vec![false, false]), Err(AnchorError::AllEmpty)));
    assert_eq!(prune.anchor_count(), 2);
}
