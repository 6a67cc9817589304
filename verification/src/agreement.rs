//! A search finds the same passages whether token scores are asked for or not.

use vstd::arithmetic::div_mod::lemma_fundamental_div_mod;
use vstd::prelude::*;

use crate::order::{lemma_increasing_unique, lemma_ranking_exists, ranking};
use crate::pipeline::{
    codes_of, is_empty_outcome, is_result, is_token_result, lengths_of, QueryResult,
    QueryResultWithTokenScores, Search,
};
use crate::score::Score;
use crate::search::{
    is_outcome, result_count, score_keys, LoadedIndex, SearchError, SearchOutcome, SearchTask,
};
use crate::strided::chosen;

verus! {

/// The two searches have the same parameters, subset and candidates, and have come equally far with
/// the same approximate scores.
pub open spec fn stand_alike(a: Search, b: Search) -> bool {
    &&& a.parameters() == b.parameters()
    &&& a.confined_to() == b.confined_to()
    &&& a.candidates() == b.candidates()
    &&& a.settled_count() == b.settled_count()
    &&& a.approximate() == b.approximate()
}

/// The two searches give exact scores to the same candidates.
pub open spec fn rerank_alike(a: Search, b: Search, index: LoadedIndex) -> bool {
    &&& a.reranked() == b.reranked()
    &&& a.reranked_lengths() == lengths_of(index, a.reranked())
    &&& b.reranked_lengths() == lengths_of(index, b.reranked())
}

/// The same is to be done next, or both searches fail in the same way or end without results.
pub open spec fn same_task(
    r: Result<SearchTask, SearchError>,
    s: Result<SearchTask, SearchError>,
) -> bool {
    match (r, s) {
        (Err(e), Err(f)) => e == f,
        (
            Ok(SearchTask::ScoreByCells { codes, lengths }),
            Ok(SearchTask::ScoreByCells { codes: others, lengths: other_lengths }),
        ) => codes@ == others@ && lengths@ == other_lengths@,
        (
            Ok(SearchTask::ScoreExactly { codes, lengths, buckets }),
            Ok(SearchTask::ScoreExactly {
                codes: others,
                lengths: other_lengths,
                buckets: other_buckets,
            }),
        ) => codes@ == others@ && lengths@ == other_lengths@ && buckets@ == other_buckets@,
        (Ok(SearchTask::Finish(o)), Ok(SearchTask::Finish(p))) => is_empty_outcome(o)
            && is_empty_outcome(p),
        _ => false,
    }
}

/// Outside work is to be done next.
pub open spec fn goes_on(r: Result<SearchTask, SearchError>) -> bool {
    r is Ok && !(r->Ok_0 is Finish)
}

/// When no token lies between `from` and `until`, none lies in the batch at `at` before `until`.
proof fn lemma_batch_without_tokens(
    index: LoadedIndex,
    pids: Seq<i64>,
    size: int,
    from: int,
    at: int,
    until: int,
    end: int,
)
    requires
        0 < size,
        0 <= from <= at < until <= pids.len(),
        (at - from) % size == 0,
        until == pids.len() || (until - from) % size == 0,
        end == if at + size < pids.len() {
            at + size
        } else {
            pids.len() as int
        },
        codes_of(index, pids.subrange(from, until)).len() == 0,
    ensures
        codes_of(index, pids.subrange(at, end)).len() == 0,
{
    if until != pids.len() {
        lemma_fundamental_div_mod(at - from, size);
        lemma_fundamental_div_mod(until - from, size);
        let p = (at - from) / size;
        let q = (until - from) / size;
        assert(size * p + size <= size * q) by (nonlinear_arith)
            requires
                0 < size,
                size * p < size * q,
        ;
    }
    let lists = index.doc_codes_strided@;
    let a = pids.subrange(from, at);
    let b = pids.subrange(at, end);
    let c = pids.subrange(end, until);
    assert(pids.subrange(from, until) =~= a + b + c);
    assert(chosen(lists, a + b + c) =~= chosen(lists, a) + chosen(lists, b) + chosen(lists, c));
    vstd::seq_lib::lemma_flatten_concat(chosen(lists, a) + chosen(lists, b), chosen(lists, c));
    vstd::seq_lib::lemma_flatten_concat(chosen(lists, a), chosen(lists, b));
}

proof fn lemma_follow_alike(
    a0: Search,
    b0: Search,
    a: Search,
    b: Search,
    index: LoadedIndex,
    r: Result<SearchTask, SearchError>,
    s: Result<SearchTask, SearchError>,
)
    requires
        0 < a0.parameters().batch_size,
        stand_alike(a0, b0),
        a.follows(a0, index, r),
        b.follows(b0, index, s),
    ensures
        stand_alike(a, b),
        same_task(r, s),
        r matches Ok(SearchTask::ScoreExactly { .. }) ==> rerank_alike(a, b, index),
{
    let from = a0.settled_count() as int;
    let size = a0.parameters().batch_size as int;
    let pids = a0.candidates();
    let at = choose|at: int|
        {
            &&& a0.settled_count() <= at <= a.candidates().len()
            &&& #[trigger] a.stops_at(a0, index, at)
            &&& if at < a.candidates().len() {
                &&& a.settled_count() == a.batch_end(at)
                &&& codes_of(index, a.batch(at)).len() > 0
                &&& r matches Ok(SearchTask::ScoreByCells { codes, lengths }) && codes@ == codes_of(
                    index,
                    a.batch(at),
                ) && lengths@ == lengths_of(index, a.batch(at))
            } else {
                a.settled_count() == at && !(r matches Ok(SearchTask::ScoreByCells { .. }))
            }
        };
    let until = choose|at: int|
        {
            &&& b0.settled_count() <= at <= b.candidates().len()
            &&& #[trigger] b.stops_at(b0, index, at)
            &&& if at < b.candidates().len() {
                &&& b.settled_count() == b.batch_end(at)
                &&& codes_of(index, b.batch(at)).len() > 0
                &&& s matches Ok(SearchTask::ScoreByCells { codes, lengths }) && codes@ == codes_of(
                    index,
                    b.batch(at),
                ) && lengths@ == lengths_of(index, b.batch(at))
            } else {
                b.settled_count() == at && !(s matches Ok(SearchTask::ScoreByCells { .. }))
            }
        };
    if at < until {
        lemma_batch_without_tokens(index, pids, size, from, at, until, a.batch_end(at));
    }
    if until < at {
        lemma_batch_without_tokens(index, pids, size, from, until, at, b.batch_end(until));
    }
}

/// Two searches with the same parameters and subset that are given the same cells go on in the same
/// way, whether they want token scores or not.
pub proof fn cells_are_taken_alike(
    a0: Search,
    b0: Search,
    a: Search,
    b: Search,
    index: LoadedIndex,
    cells: Seq<i64>,
    r: Result<SearchTask, SearchError>,
    s: Result<SearchTask, SearchError>,
)
    requires
        0 < a0.parameters().batch_size,
        a0.parameters() == b0.parameters(),
        a0.confined_to() == b0.confined_to(),
        a.takes_cells(a0, index, cells, r),
        b.takes_cells(b0, index, cells, s),
    ensures
        same_task(r, s),
        goes_on(r) ==> stand_alike(a, b),
        r matches Ok(SearchTask::ScoreExactly { .. }) ==> rerank_alike(a, b, index),
{
    if index.ivf_index_strided is Some {
        assert forall|p: i64| a.candidates().contains(p) <==> b.candidates().contains(p) by {}
        lemma_increasing_unique(a.candidates(), b.candidates());
        if a.candidates().len() > 0 {
            let x = choose|start: Search|
                {
                    &&& start.settled_count() == 0
                    &&& start.approximate().len() == 0
                    &&& #[trigger] a.follows(start, index, r)
                };
            let y = choose|start: Search|
                {
                    &&& start.settled_count() == 0
                    &&& start.approximate().len() == 0
                    &&& #[trigger] b.follows(start, index, s)
                };
            assert(x.approximate() =~= y.approximate());
            lemma_follow_alike(x, y, a, b, index, r, s);
        }
    }
}

/// Two searches that stand alike and are given the same approximate scores go on in the same way,
/// whether they want token scores or not.
pub proof fn scores_are_taken_alike(
    a0: Search,
    b0: Search,
    a: Search,
    b: Search,
    index: LoadedIndex,
    scores: Seq<Score>,
    r: Result<SearchTask, SearchError>,
    s: Result<SearchTask, SearchError>,
)
    requires
        0 < a0.parameters().batch_size,
        stand_alike(a0, b0),
        a.takes_scores(a0, index, scores, r),
        b.takes_scores(b0, index, scores, s),
    ensures
        same_task(r, s),
        stand_alike(a, b),
        r matches Ok(SearchTask::ScoreExactly { .. }) ==> rerank_alike(a, b, index),
{
    let x = choose|start: Search|
        {
            &&& start.parameters() == a0.parameters()
            &&& start.wants_token_scores() == a0.wants_token_scores()
            &&& start.confined_to() == a0.confined_to()
            &&& start.candidates() == a0.candidates()
            &&& start.settled_count() == a0.settled_count()
            &&& start.approximate() == a0.approximate() + scores
            &&& #[trigger] a.follows(start, index, r)
        };
    let y = choose|start: Search|
        {
            &&& start.parameters() == b0.parameters()
            &&& start.wants_token_scores() == b0.wants_token_scores()
            &&& start.confined_to() == b0.confined_to()
            &&& start.candidates() == b0.candidates()
            &&& start.settled_count() == b0.settled_count()
            &&& start.approximate() == b0.approximate() + scores
            &&& #[trigger] b.follows(start, index, s)
        };
    lemma_follow_alike(x, y, a, b, index, r, s);
}

/// What a search ends with when `r` is its last task and `exact` are the exact scores, if `r` asks
/// for any.
pub open spec fn ends_with(
    a: Search,
    r: Result<SearchTask, SearchError>,
    exact: Seq<Score>,
    found: Result<SearchOutcome, SearchError>,
) -> bool {
    match r {
        Err(e) => found == Err::<SearchOutcome, SearchError>(e),
        Ok(SearchTask::Finish(o)) => found == Ok::<SearchOutcome, SearchError>(o),
        Ok(SearchTask::ScoreExactly { .. }) => {
            &&& exact.len() == a.reranked().len()
            &&& found matches Ok(o) && is_outcome(
                o,
                a.reranked(),
                a.reranked_lengths(),
                exact,
                a.parameters().top_k as int,
                a.wants_token_scores(),
            )
        },
        Ok(SearchTask::ScoreByCells { .. }) => false,
    }
}

/// The outcomes without and with token scores for the same candidates and exact scores.
pub open spec fn are_outcomes(
    index: LoadedIndex,
    kept: Seq<i64>,
    exact: Seq<Score>,
    top_k: int,
    plain: SearchOutcome,
    full: SearchOutcome,
) -> bool {
    &&& exact.len() == kept.len() <= usize::MAX
    &&& is_outcome(plain, kept, lengths_of(index, kept), exact, top_k, false)
    &&& is_outcome(full, kept, lengths_of(index, kept), exact, top_k, true)
}

/// Two searches end alike: with the same error, without results, or with the outcomes without and
/// with token scores for the same candidates and exact scores.
pub open spec fn end_alike(
    index: LoadedIndex,
    top_k: int,
    plain: Result<SearchOutcome, SearchError>,
    full: Result<SearchOutcome, SearchError>,
) -> bool {
    match (plain, full) {
        (Err(e), Err(f)) => e == f,
        (Ok(o), Ok(p)) => {
            ||| is_empty_outcome(o) && is_empty_outcome(p)
            ||| exists|kept: Seq<i64>, exact: Seq<Score>|
                #[trigger] are_outcomes(index, kept, exact, top_k, o, p)
        },
        _ => false,
    }
}

/// Two searches whose last tasks are the same, one of which wants token scores, end alike when they
/// are given the same exact scores.
pub proof fn searches_end_alike(
    a: Search,
    b: Search,
    index: LoadedIndex,
    r: Result<SearchTask, SearchError>,
    s: Result<SearchTask, SearchError>,
    exact: Seq<Score>,
    plain: Result<SearchOutcome, SearchError>,
    full: Result<SearchOutcome, SearchError>,
)
    requires
        a.parameters() == b.parameters(),
        !a.wants_token_scores(),
        b.wants_token_scores(),
        same_task(r, s),
        r matches Ok(SearchTask::ScoreExactly { .. }) ==> rerank_alike(a, b, index),
        exact.len() <= usize::MAX,
        ends_with(a, r, exact, plain),
        ends_with(b, s, exact, full),
    ensures
        end_alike(index, a.parameters().top_k as int, plain, full),
{
    if r matches Ok(SearchTask::ScoreExactly { .. }) {
        assert(are_outcomes(
            index,
            a.reranked(),
            exact,
            a.parameters().top_k as int,
            plain->Ok_0,
            full->Ok_0,
        ));
    }
}

/// The two results are of the same query and agree in passages and scores, and every passage has
/// its token scores, as many for each query token as the passage has tokens.
pub open spec fn agree(index: LoadedIndex, q: QueryResult, t: QueryResultWithTokenScores) -> bool {
    &&& q.query_id == t.query_id
    &&& q.passage_ids@ == t.passage_ids@
    &&& q.scores@ == t.scores@
    &&& t.token_scores_inner@.len() == t.passage_ids@.len()
    &&& forall|j: int|
        0 <= j < t.passage_ids@.len() ==> (#[trigger] t.token_scores_inner@[j]).doc_len
            == index.doc_codes_strided.row_counts()[t.passage_ids@[j] as int]
}

proof fn lemma_results_agree(
    index: LoadedIndex,
    top_k: int,
    i: int,
    plain: Result<SearchOutcome, SearchError>,
    full: Result<SearchOutcome, SearchError>,
    q: QueryResult,
    t: QueryResultWithTokenScores,
)
    requires
        0 <= top_k,
        end_alike(index, top_k, plain, full),
        is_result(i, q, plain),
        is_token_result(i, t, full),
    ensures
        agree(index, q, t),
{
    if plain is Ok && !(is_empty_outcome(plain->Ok_0) && is_empty_outcome(full->Ok_0)) {
        let (kept, exact) = choose|kept: Seq<i64>, exact: Seq<Score>|
            #[trigger] are_outcomes(index, kept, exact, top_k, plain->Ok_0, full->Ok_0);
        lemma_ranking_exists(score_keys(exact));
        let order = ranking(score_keys(exact));
        let count = result_count(kept.len() as int, top_k);
        assert forall|j: int| 0 <= j < t.passage_ids@.len() implies (
        #[trigger] t.token_scores_inner@[j]).doc_len
            == index.doc_codes_strided.row_counts()[t.passage_ids@[j] as int] by {
            assert(j < count);
            assert(order[j] < kept.len());
        }
    }
    assert(q.passage_ids@ =~= t.passage_ids@);
    assert(q.scores@ =~= t.scores@);
}

/// Asking for token scores changes neither passages nor scores: `search_many` and
/// `search_many_with_token_scores`, for searches that end alike, give results that agree.
pub proof fn token_scores_change_nothing_else(
    index: LoadedIndex,
    top_k: int,
    plain: Seq<Result<SearchOutcome, SearchError>>,
    full: Seq<Result<SearchOutcome, SearchError>>,
    results: Seq<QueryResult>,
    token_results: Seq<QueryResultWithTokenScores>,
)
    requires
        0 <= top_k,
        plain.len() == full.len(),
        forall|i: int|
            0 <= i < plain.len() ==> end_alike(index, top_k, #[trigger] plain[i], full[i]),
        results.len() == plain.len(),
        forall|i: int| 0 <= i < results.len() ==> is_result(i, #[trigger] results[i], plain[i]),
        token_results.len() == full.len(),
        forall|i: int|
            0 <= i < token_results.len() ==> is_token_result(
                i,
                #[trigger] token_results[i],
                full[i],
            ),
    ensures
        results.len() == token_results.len(),
        forall|i: int|
            0 <= i < results.len() ==> agree(index, #[trigger] results[i], token_results[i]),
{
    assert forall|i: int| 0 <= i < results.len() implies agree(
        index,
        #[trigger] results[i],
        token_results[i],
    ) by {
        assert(end_alike(index, top_k, plain[i], full[i]));
        assert(is_token_result(i, token_results[i], full[i]));
        lemma_results_agree(index, top_k, i, plain[i], full[i], results[i], token_results[i]);
    }
}

} // verus!
