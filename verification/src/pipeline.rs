//! One search from its beginning to its end, and the results of several.

use vstd::prelude::*;

use crate::codec::decompress_residuals;
use crate::ivf::{cell_lists, doc_codes, listed_iff_coded};
use crate::order::{
    increasing, is_ranking, lemma_ranking_covers, lemma_ranking_exists, ranking, ranks_before,
};
use crate::packing::unpacked_buckets;
use crate::score::Score;
use crate::search::{
    admits, candidates_are_what_the_cells_list, choose_cells, gather_candidates, ids_of,
    is_candidates, is_cell_task, is_outcome, kept_candidates, kept_count, lemma_codes_chosen,
    listed_in, prune_candidates, result_count, score_keys, select_results,
    the_best_candidates_are_kept, CellTask, LoadedIndex, SearchError, SearchOutcome,
    SearchParameters, SearchTask, TokenMatrix,
};
use crate::strided::{append, chosen, copy_ids, ids_in, StridedTensor};

verus! {

/// A search under way.
pub struct Search {
    params: SearchParameters,
    dim: usize,
    token_scores: bool,
    subset: Option<Vec<i64>>,
    pids: Vec<i64>,
    settled: usize,
    scores: Vec<Score>,
    kept: Vec<i64>,
    lengths: Vec<i64>,
}

/// Rows of the chosen lists.
pub open spec fn chosen_rows(counts: Seq<i64>, ids: Seq<i64>, n: nat) -> int
    decreases n,
{
    if n == 0 {
        0
    } else {
        chosen_rows(counts, ids, (n - 1) as nat) + counts[ids[n - 1] as int]
    }
}

pub proof fn lemma_chosen_len<T: Copy>(t: StridedTensor<T>, ids: Seq<i64>, n: nat)
    requires
        t.wf(),
        ids_in(ids, t@.len()),
        n <= ids.len(),
    ensures
        chosen(t@, ids).take(n as int).flatten().len() == chosen_rows(t.row_counts(), ids, n)
            * t.row_width(),
    decreases n,
{
    let lists = chosen(t@, ids);
    if n == 0 {
        assert(lists.take(0) =~= Seq::empty());
        assert(0 * t.row_width() == 0) by (nonlinear_arith);
    } else {
        let m = (n - 1) as nat;
        lemma_chosen_len(t, ids, m);
        t.lemma_parts();
        assert(0 <= ids[n - 1] < t@.len());
        let last = lists[n - 1];
        assert(lists.take(n as int) =~= lists.take(m as int).push(last));
        lists.take(m as int).lemma_flatten_push(last);
        let (a, b, w) = (
            chosen_rows(t.row_counts(), ids, m),
            t.row_counts()[ids[n - 1] as int] as int,
            t.row_width() as int,
        );
        assert((a + b) * w == a * w + b * w) by (nonlinear_arith);
    }
}

/// The cells of the tokens of some documents.
pub open spec fn codes_of(index: LoadedIndex, pids: Seq<i64>) -> Seq<i64> {
    chosen(index.doc_codes_strided@, pids).flatten()
}

/// The number of tokens of some documents.
pub open spec fn lengths_of(index: LoadedIndex, pids: Seq<i64>) -> Seq<i64> {
    Seq::new(pids.len(), |i: int| index.doc_codes_strided.row_counts()[pids[i] as int])
}

/// The bucket numbers of the tokens of some documents.
pub open spec fn buckets_of(index: LoadedIndex, pids: Seq<i64>) -> Seq<i64> {
    unpacked_buckets(
        chosen(index.doc_residuals_strided@, pids).flatten(),
        index.codec.nbits as nat,
    )
}

/// A search without results.
pub open spec fn is_empty_outcome(o: SearchOutcome) -> bool {
    o.passage_ids@.len() == 0 && o.scores@.len() == 0 && o.token_matrices is None
}

/// Some scores of zero.
pub open spec fn zeros(n: int) -> Seq<Score> {
    Seq::new(n as nat, |i: int| Score { bits: 0 })
}

/// What follows when every candidate has been scored by its cells.
pub open spec fn is_rerank(
    r: Result<SearchTask, SearchError>,
    index: LoadedIndex,
    pids: Seq<i64>,
    scores: Seq<Score>,
    n_full: int,
) -> bool {
    if scores.len() != pids.len() {
        r == Err::<SearchTask, SearchError>(
            SearchError::CountMismatch {
                passages: pids.len() as usize,
                scores: scores.len() as usize,
            },
        )
    } else {
        let kept = kept_candidates(pids, scores, n_full);
        if kept.len() == 0 {
            r matches Ok(SearchTask::Finish(o)) && is_empty_outcome(o)
        } else if !index.codec.has_bucket_weights {
            r == Err::<SearchTask, SearchError>(SearchError::MissingBucketWeights)
        } else {
            r matches Ok(SearchTask::ScoreExactly { codes, lengths, buckets }) && codes@ == codes_of(
                index,
                kept,
            ) && lengths@ == lengths_of(index, kept) && buckets@ == buckets_of(index, kept)
        }
    }
}

impl Search {
    /// The candidates are documents of the index, and those that are settled come first.
    pub closed spec fn wf(&self, index: LoadedIndex) -> bool {
        &&& index.wf()
        &&& index.stores_dimension(self.dim as int)
        &&& 0 < self.params.batch_size
        &&& ids_in(self.pids@, index.doc_codes_strided@.len())
        &&& self.settled <= self.pids@.len()
        &&& self.kept@.len() == self.lengths@.len()
        &&& self.subset matches Some(s) ==> ids_in(s@, index.doc_codes_strided@.len())
    }

    /// The search configuration.
    pub closed spec fn parameters(&self) -> SearchParameters {
        self.params
    }

    /// Whether token scores are asked for.
    pub closed spec fn wants_token_scores(&self) -> bool {
        self.token_scores
    }

    /// The documents that the search is confined to.
    pub closed spec fn confined_to(&self) -> Option<Seq<i64>> {
        ids_of(self.subset)
    }

    /// The candidates.
    pub closed spec fn candidates(&self) -> Seq<i64> {
        self.pids@
    }

    /// How many candidates have scores, or are being scored.
    pub closed spec fn settled_count(&self) -> nat {
        self.settled as nat
    }

    /// The approximate scores so far.
    pub closed spec fn approximate(&self) -> Seq<Score> {
        self.scores@
    }

    /// The candidates that get exact scores.
    pub closed spec fn reranked(&self) -> Seq<i64> {
        self.kept@
    }

    /// The number of tokens of the candidates that get exact scores.
    pub closed spec fn reranked_lengths(&self) -> Seq<i64> {
        self.lengths@
    }

    /// End of the batch that starts at candidate `a`.
    pub open spec fn batch_end(&self, a: int) -> int {
        if a + self.parameters().batch_size < self.candidates().len() {
            a + self.parameters().batch_size
        } else {
            self.candidates().len() as int
        }
    }

    /// The candidates of the batch that starts at candidate `a`.
    pub open spec fn batch(&self, a: int) -> Seq<i64> {
        self.candidates().subrange(a, self.batch_end(a))
    }

    /// `self` is `before`, gone on with to the next outside work. Batches without any token are
    /// passed over, with scores of zero; at the first batch that has tokens the search stops to
    /// have it scored, and behind the last batch it goes on to re-ranking.
    pub open spec fn follows(
        &self,
        before: Search,
        index: LoadedIndex,
        r: Result<SearchTask, SearchError>,
    ) -> bool {
        &&& self.parameters() == before.parameters()
        &&& self.wants_token_scores() == before.wants_token_scores()
        &&& self.confined_to() == before.confined_to()
        &&& self.candidates() == before.candidates()
        &&& exists|at: int|
            {
                &&& before.settled_count() <= at <= self.candidates().len()
                &&& #[trigger] self.stops_at(before, index, at)
                &&& if at < self.candidates().len() {
                    let pids = self.batch(at);
                    &&& self.settled_count() == self.batch_end(at)
                    &&& codes_of(index, pids).len() > 0
                    &&& r matches Ok(SearchTask::ScoreByCells { codes, lengths }) && codes@
                        == codes_of(index, pids) && lengths@ == lengths_of(index, pids)
                } else {
                    let n_full = self.parameters().n_full_scores as int;
                    &&& self.settled_count() == at
                    &&& is_rerank(r, index, self.candidates(), self.approximate(), n_full)
                    &&& r matches Ok(SearchTask::ScoreExactly { .. }) ==> self.reranked()
                        == kept_candidates(self.candidates(), self.approximate(), n_full)
                        && self.reranked_lengths() == lengths_of(index, self.reranked())
                }
            }
    }

    /// The batches from where `before` stood up to candidate `at` have no tokens, and got scores of
    /// zero.
    pub open spec fn stops_at(&self, before: Search, index: LoadedIndex, at: int) -> bool {
        let from = before.settled_count() as int;
        &&& at == self.candidates().len() || (at - from) % (self.parameters().batch_size as int)
            == 0
        &&& codes_of(index, self.candidates().subrange(from, at)).len() == 0
        &&& self.approximate() == before.approximate() + zeros(at - from)
    }

    /// `self` is `before`, gone on with once the cells to probe are chosen.
    pub open spec fn takes_cells(
        &self,
        before: Search,
        index: LoadedIndex,
        cells: Seq<i64>,
        r: Result<SearchTask, SearchError>,
    ) -> bool {
        &&& self.parameters() == before.parameters()
        &&& self.wants_token_scores() == before.wants_token_scores()
        &&& self.confined_to() == before.confined_to()
        &&& match index.ivf_index_strided {
            None => r == Err::<SearchTask, SearchError>(SearchError::NotSearchable),
            Some(t) => {
                &&& is_candidates(self.candidates(), t@, cells, before.confined_to())
                &&& if self.candidates().len() == 0 {
                    r matches Ok(SearchTask::Finish(o)) && is_empty_outcome(o)
                } else {
                    exists|start: Search|
                        {
                            &&& start.settled_count() == 0
                            &&& start.approximate().len() == 0
                            &&& #[trigger] self.follows(start, index, r)
                        }
                }
            },
        }
    }

    /// `self` is `before`, gone on with once a batch has been scored by its cells.
    pub open spec fn takes_scores(
        &self,
        before: Search,
        index: LoadedIndex,
        scores: Seq<Score>,
        r: Result<SearchTask, SearchError>,
    ) -> bool {
        exists|start: Search|
            {
                &&& start.parameters() == before.parameters()
                &&& start.wants_token_scores() == before.wants_token_scores()
                &&& start.confined_to() == before.confined_to()
                &&& start.candidates() == before.candidates()
                &&& start.settled_count() == before.settled_count()
                &&& start.approximate() == before.approximate() + scores
                &&& #[trigger] self.follows(start, index, r)
            }
    }

    /// Begins a search for a query of dimension `dim`, and says from which cells to choose.
    pub fn begin(
        index: &LoadedIndex,
        params: SearchParameters,
        dim: usize,
        subset: Option<Vec<i64>>,
        token_scores: bool,
    ) -> (r: (Search, CellTask))
        requires
            index.wf(),
            index.stores_dimension(dim as int),
            0 < params.batch_size,
            subset matches Some(s) ==> ids_in(s@, index.doc_codes_strided@.len()),
        ensures
            r.0.wf(*index),
            r.0.parameters() == params,
            r.0.wants_token_scores() == token_scores,
            r.0.confined_to() == ids_of(subset),
            is_cell_task(r.1, index.doc_codes_strided@, params.n_ivf_probe, ids_of(subset)),
            subset is None ==> r.1 == (CellTask::Nearest { k: params.n_ivf_probe }),
            subset matches Some(s) ==> {
                &&& r.1 is NoCells <==> forall|i: int|
                    0 <= i < s@.len() ==> (#[trigger] index.doc_codes_strided@[s@[i] as int]).len()
                        == 0
                &&& r.1 !is Nearest
                &&& r.1 matches CellTask::NearestAmong { cells, k } ==> {
                    &&& forall|i: int, j: int|
                        0 <= i < j < cells@.len() ==> #[trigger] cells@[i] < #[trigger] cells@[j]
                    &&& forall|c: i64| #[trigger]
                        cells@.contains(c) <==> exists|i: int|
                            0 <= i < s@.len() && (
                            #[trigger] index.doc_codes_strided@[s@[i] as int]).contains(c)
                    &&& k <= params.n_ivf_probe
                    &&& k <= cells@.len()
                    &&& k == params.n_ivf_probe || k == cells@.len()
                }
            },
            subset matches Some(s) ==> r.0.confined_to() == Some(s@),
            subset is None ==> r.0.confined_to() is None,
    {
        let task = choose_cells(&index.doc_codes_strided, params.n_ivf_probe, &subset);
        let search = Search {
            params,
            dim,
            token_scores,
            subset,
            pids: Vec::new(),
            settled: 0,
            scores: Vec::new(),
            kept: Vec::new(),
            lengths: Vec::new(),
        };
        (search, task)
    }

    /// Goes on once the cells to probe are chosen.
    pub fn on_cells(&mut self, index: &LoadedIndex, cells: &Vec<i64>) -> (r: Result<
        SearchTask,
        SearchError,
    >)
        requires
            old(self).wf(*index),
            index.ivf_index_strided matches Some(t) ==> ids_in(cells@, t@.len()),
        ensures
            final(self).wf(*index),
            final(self).takes_cells(*old(self), *index, cells@, r),
    {
        let ivf = match &index.ivf_index_strided {
            Some(t) => t,
            None => {
                return Err(SearchError::NotSearchable);
            },
        };
        let pids = gather_candidates(ivf, cells, &self.subset);
        proof {
            let subset = ids_of(self.subset);
            assert forall|i: int| 0 <= i < pids@.len() implies 0 <= #[trigger] pids@[i]
                < index.doc_codes_strided@.len() by {
                let p = pids@[i];
                assert(pids@.contains(p));
                assert(listed_in(ivf@, cells@, p));
                let c = choose|c: int|
                    0 <= c < cells@.len() && #[trigger] ivf@[cells@[c] as int].contains(p);
                lemma_entry(*ivf, cells@[c] as int, p);
                let e = ivf.entries().index_of(p);
                assert(0 <= ivf.entries()[e] < index.doc_codes_strided@.len());
            }
        }
        let none: bool = pids.len() == 0;
        self.pids = pids;
        self.settled = 0;
        self.scores = Vec::new();
        self.kept = Vec::new();
        self.lengths = Vec::new();
        if none {
            return Ok(
                SearchTask::Finish(
                    SearchOutcome {
                        passage_ids: Vec::new(),
                        scores: Vec::new(),
                        token_matrices: None,
                    },
                ),
            );
        }
        let ghost start = *self;
        let r = self.advance(index);
        assert(self.follows(start, *index, r));
        r
    }

    /// Goes on once a batch has been scored by its cells.
    pub fn on_scores(&mut self, index: &LoadedIndex, scores: &Vec<Score>) -> (r: Result<
        SearchTask,
        SearchError,
    >)
        requires
            old(self).wf(*index),
        ensures
            final(self).wf(*index),
            final(self).takes_scores(*old(self), *index, scores@, r),
    {
        append(&mut self.scores, scores);
        let ghost start = *self;
        let r = self.advance(index);
        assert(self.follows(start, *index, r));
        r
    }

    /// Ends the search once the kept candidates have been scored exactly.
    pub fn on_exact(&self, index: &LoadedIndex, exact: &Vec<Score>) -> (r: SearchOutcome)
        requires
            self.wf(*index),
            exact@.len() == self.reranked().len(),
        ensures
            is_outcome(
                r,
                self.reranked(),
                self.reranked_lengths(),
                exact@,
                self.parameters().top_k as int,
                self.wants_token_scores(),
            ),
            r.passage_ids@.len() <= self.parameters().top_k,
            r.passage_ids@.len() <= exact@.len(),
            r.passage_ids@.len() == self.parameters().top_k || r.passage_ids@.len() == exact@.len(),
            r.scores@.len() == r.passage_ids@.len(),
            exists|at: Seq<usize>|
                {
                    &&& #[trigger] at.no_duplicates()
                    &&& at.len() == r.passage_ids@.len()
                    &&& forall|i: int|
                        0 <= i < at.len() ==> (#[trigger] at[i]) < exact@.len() && r.passage_ids@[i]
                            == self.reranked()[at[i] as int] && r.scores@[i] == exact@[at[i] as int]
                    &&& forall|i: int, q: usize|
                        0 <= i < at.len() && q < exact@.len() && !#[trigger] at.contains(q)
                            ==> exact@[#[trigger] at[i] as int].key() >= exact@[q as int].key()
                    &&& r.token_matrices matches Some(m) ==> forall|i: int|
                        0 <= i < at.len() ==> (#[trigger] m@[i]).place == at[i]
                },
            forall|i: int, j: int|
                0 <= i < j < r.scores@.len() ==> (#[trigger] r.scores@[i]).key() >= (
                #[trigger] r.scores@[j]).key(),
            r.token_matrices is Some <==> self.wants_token_scores(),
            r.token_matrices matches Some(m) ==> m@.len() == r.passage_ids@.len() && forall|i: int|
                0 <= i < m@.len() ==> {
                    let p = (#[trigger] m@[i]).place as int;
                    &&& p < exact@.len()
                    &&& self.reranked()[p] == r.passage_ids@[i]
                    &&& exact@[p] == r.scores@[i]
                    &&& m@[i].doc_len == self.reranked_lengths()[p]
                },
    {
        select_results(&self.kept, &self.lengths, exact, self.params.top_k, self.token_scores)
    }

    /// How many candidates get exact scores.
    pub fn rerank_count(&self) -> (r: usize)
        ensures
            r == self.reranked().len(),
    {
        self.kept.len()
    }

    fn advance(&mut self, index: &LoadedIndex) -> (r: Result<SearchTask, SearchError>)
        requires
            old(self).wf(*index),
        ensures
            final(self).wf(*index),
            final(self).follows(*old(self), *index, r),
    {
        let ghost before = *self;
        let ghost from = before.settled as int;
        let size: usize = self.params.batch_size;
        proof {
            assert(self.pids@.subrange(from, from) =~= Seq::empty());
            assert(chosen(index.doc_codes_strided@, Seq::empty()) =~= Seq::empty());
            assert(self.scores@ =~= before.scores@ + zeros(0));
            assert(0int % (size as int) == 0);
        }
        while self.settled < self.pids.len()
            invariant
                self.wf(*index),
                size == self.params.batch_size,
                size > 0,
                before == *old(self),
                before.settled == from,
                from <= self.settled,
                self.params == before.params,
                self.dim == before.dim,
                self.token_scores == before.token_scores,
                self.subset == before.subset,
                self.pids == before.pids,
                self.stops_at(before, *index, self.settled as int),
            decreases self.pids@.len() - self.settled,
        {
            let at: usize = self.settled;
            let n: usize = self.pids.len();
            let end: usize = if size < n - at {
                at + size
            } else {
                n
            };
            let mut batch: Vec<i64> = Vec::new();
            let mut i: usize = at;
            while i < end
                invariant
                    at <= i <= end <= self.pids@.len(),
                    batch@ == self.pids@.subrange(at as int, i as int),
                decreases end - i,
            {
                batch.push(self.pids[i]);
                i += 1;
                assert(batch@ =~= self.pids@.subrange(at as int, i as int));
            }
            assert(batch@ == self.batch(at as int));
            assert forall|k: int| 0 <= k < batch@.len() implies 0 <= #[trigger] batch@[k]
                < index.doc_codes_strided@.len() by {
                assert(0 <= self.pids@[at + k] < index.doc_codes_strided@.len());
            }
            let (codes, lengths) = index.doc_codes_strided.lookup(&batch);
            self.settled = end;
            if codes.len() > 0 {
                let r = Ok(SearchTask::ScoreByCells { codes, lengths });
                assert(lengths@ =~= lengths_of(*index, self.batch(at as int)));
                assert(self.stops_at(before, *index, at as int));
                assert(self.follows(before, *index, r));
                return r;
            }
            let ghost known = self.scores@;
            let mut j: usize = at;
            while j < end
                invariant
                    at <= j <= end,
                    self.wf(*index),
                    self.params == before.params,
                    self.dim == before.dim,
                    self.token_scores == before.token_scores,
                    self.subset == before.subset,
                    self.pids == before.pids,
                    self.settled == end,
                    self.scores@ == known + zeros(j - at),
                decreases end - j,
            {
                self.scores.push(Score::zero());
                j += 1;
                assert(self.scores@ =~= known + zeros(j - at));
            }
            proof {
                let pids = self.pids@;
                let a = pids.subrange(from, at as int);
                let b = pids.subrange(at as int, end as int);
                assert(pids.subrange(from, end as int) =~= a + b);
                let lists = index.doc_codes_strided@;
                assert(chosen(lists, a + b) =~= chosen(lists, a) + chosen(lists, b));
                vstd::seq_lib::lemma_flatten_concat(chosen(lists, a), chosen(lists, b));
                assert(self.scores@ =~= before.scores@ + zeros(end - from));
                if end < n {
                    vstd::arithmetic::div_mod::lemma_mod_add_multiples_vanish(
                        at - from,
                        size as int,
                    );
                    assert((end - from) % (size as int) == 0);
                }
            }
        }
        let n: usize = self.pids.len();
        if self.scores.len() != n {
            let r = Err(SearchError::CountMismatch { passages: n, scores: self.scores.len() });
            assert(self.stops_at(before, *index, n as int));
            assert(self.follows(before, *index, r));
            return r;
        }
        let kept = prune_candidates(&self.pids, &self.scores, self.params.n_full_scores);
        if kept.len() == 0 {
            let r = Ok(
                SearchTask::Finish(
                    SearchOutcome {
                        passage_ids: Vec::new(),
                        scores: Vec::new(),
                        token_matrices: None,
                    },
                ),
            );
            assert(self.stops_at(before, *index, n as int));
            assert(self.follows(before, *index, r));
            return r;
        }
        if !index.codec.has_bucket_weights {
            let r = Err(SearchError::MissingBucketWeights);
            assert(self.stops_at(before, *index, n as int));
            assert(self.follows(before, *index, r));
            return r;
        }
        proof {
            assert forall|i: int| 0 <= i < kept@.len() implies 0 <= #[trigger] kept@[i]
                < index.doc_codes_strided@.len() by {
                assert(self.pids@.contains(kept@[i]));
                let j = self.pids@.index_of(kept@[i]);
                assert(0 <= self.pids@[j] < index.doc_codes_strided@.len());
            }
            index.doc_codes_strided.lemma_parts();
            index.doc_residuals_strided.lemma_parts();
            lemma_chosen_len(index.doc_codes_strided, kept@, kept@.len());
            lemma_chosen_len(index.doc_residuals_strided, kept@, kept@.len());
            let lists = chosen(index.doc_codes_strided@, kept@);
            assert(lists.take(kept@.len() as int) =~= lists);
            let bytes = chosen(index.doc_residuals_strided@, kept@);
            assert(bytes.take(kept@.len() as int) =~= bytes);
        }
        let (codes, lengths) = index.doc_codes_strided.lookup(&kept);
        let (residuals, _) = index.doc_residuals_strided.lookup(&kept);
        assert(codes@.len() == chosen_rows(
            index.doc_codes_strided.row_counts(),
            kept@,
            kept@.len(),
        ));
        let buckets = decompress_residuals(&index.codec, &residuals, codes.len(), self.dim);
        assert(lengths@ =~= lengths_of(*index, kept@));
        self.lengths = copy_ids(&lengths);
        self.kept = kept;
        let r = Ok(SearchTask::ScoreExactly { codes, lengths, buckets });
        assert(self.stops_at(before, *index, n as int));
        assert(self.follows(before, *index, r));
        r
    }
}

/// What a list holds is an entry.
proof fn lemma_entry(t: StridedTensor<i64>, c: int, p: i64)
    requires
        t.wf(),
        0 <= c < t@.len(),
        t@[c].contains(p),
    ensures
        t.entries().contains(p),
{
    t.lemma_parts();
    let lists = t@;
    let head = lists.take(c);
    let tail = lists.skip(c + 1);
    assert(lists =~= head.push(lists[c]) + tail);
    vstd::seq_lib::lemma_flatten_concat(head.push(lists[c]), tail);
    head.lemma_flatten_push(lists[c]);
    let i = lists[c].index_of(p);
    assert(lists.flatten()[head.flatten().len() + i] == p);
}

/// The results of a query.
pub struct QueryResult {
    /// Number of the query.
    pub query_id: usize,
    /// Passages, the best first.
    pub passage_ids: Vec<i64>,
    /// Their scores.
    pub scores: Vec<Score>,
}

/// The results of a query, and where the token scores of each passage stand.
pub struct QueryResultWithTokenScores {
    /// Number of the query.
    pub query_id: usize,
    /// Passages, the best first.
    pub passage_ids: Vec<i64>,
    /// Their scores.
    pub scores: Vec<Score>,
    /// Where their token scores stand.
    pub token_scores_inner: Vec<TokenMatrix>,
}

/// Whether queries of this shape can be searched for: gives their number and their dimension.
pub fn check_queries(index: &LoadedIndex, shape: &Vec<i64>) -> (r: Result<(i64, i64), SearchError>)
    ensures
        r == if index.ivf_index_strided is None {
            Err::<(i64, i64), SearchError>(SearchError::NotSearchable)
        } else if shape@.len() != 3 {
            Err(SearchError::BadQueryShape)
        } else {
            Ok((shape@[0], shape@[2]))
        },
{
    if index.ivf_index_strided.is_none() {
        Err(SearchError::NotSearchable)
    } else if shape.len() != 3 {
        Err(SearchError::BadQueryShape)
    } else {
        Ok((shape[0], shape[2]))
    }
}

/// The documents that query `i` is confined to. A query without a list of its own is not confined.
pub fn query_subset(subset: &Option<Vec<Vec<i64>>>, i: usize) -> (r: Option<Vec<i64>>)
    ensures
        match *subset {
            Some(s) => if i < s@.len() {
                r matches Some(v) && v@ == s@[i as int]@
            } else {
                r is None
            },
            None => r is None,
        },
{
    match subset {
        None => None,
        Some(s) => if i < s.len() {
            Some(copy_ids(&s[i]))
        } else {
            None
        },
    }
}

/// Result `i` is that of search `i`, and empty if that search failed.
pub open spec fn is_result(
    i: int,
    q: QueryResult,
    found: Result<SearchOutcome, SearchError>,
) -> bool {
    &&& q.query_id == i
    &&& match found {
        Ok(o) => q.passage_ids@ == o.passage_ids@ && q.scores@ == o.scores@,
        Err(_) => q.passage_ids@.len() == 0 && q.scores@.len() == 0,
    }
}

/// Result `i` is that of search `i`, and empty if that search failed.
pub open spec fn is_token_result(
    i: int,
    q: QueryResultWithTokenScores,
    found: Result<SearchOutcome, SearchError>,
) -> bool {
    &&& q.query_id == i
    &&& match found {
        Ok(o) => {
            &&& q.passage_ids@ == o.passage_ids@
            &&& q.scores@ == o.scores@
            &&& match o.token_matrices {
                Some(m) => q.token_scores_inner@ == m@,
                None => q.token_scores_inner@.len() == 0,
            }
        },
        Err(_) => {
            &&& q.passage_ids@.len() == 0
            &&& q.scores@.len() == 0
            &&& q.token_scores_inner@.len() == 0
        },
    }
}

/// The results of several searches, one for each. A search that failed has an empty result and does
/// not stop the others.
pub fn search_many(found: Vec<Result<SearchOutcome, SearchError>>) -> (r: Vec<QueryResult>)
    ensures
        r@.len() == found@.len(),
        forall|i: int| 0 <= i < r@.len() ==> is_result(i, #[trigger] r@[i], found@[i]),
        forall|i: int| 0 <= i < r@.len() ==> (#[trigger] r@[i]).query_id == i,
        forall|i: int|
            0 <= i < r@.len() ==> ((#[trigger] found@[i]) matches Ok(o) ==> r@[i].passage_ids@
                == o.passage_ids@ && r@[i].scores@ == o.scores@),
        forall|i: int|
            0 <= i < r@.len() && (#[trigger] found@[i]) is Err ==> r@[i].passage_ids@.len() == 0
                && r@[i].scores@.len() == 0,
{
    let ghost all = found@;
    let mut out: Vec<QueryResult> = Vec::new();
    for one in it: found
        invariant
            it.seq() == all,
            out@.len() == it.index(),
            forall|i: int| 0 <= i < out@.len() ==> is_result(i, #[trigger] out@[i], all[i]),
    {
        let query_id: usize = out.len();
        out.push(
            match one {
                Ok(o) => QueryResult { query_id, passage_ids: o.passage_ids, scores: o.scores },
                Err(_) => QueryResult { query_id, passage_ids: Vec::new(), scores: Vec::new() },
            },
        );
    }
    out
}

/// The results of several searches with token scores, one for each. A search that failed has an
/// empty result and does not stop the others.
pub fn search_many_with_token_scores(found: Vec<Result<SearchOutcome, SearchError>>) -> (r: Vec<
    QueryResultWithTokenScores,
>)
    ensures
        r@.len() == found@.len(),
        forall|i: int| 0 <= i < r@.len() ==> is_token_result(i, #[trigger] r@[i], found@[i]),
        forall|i: int| 0 <= i < r@.len() ==> (#[trigger] r@[i]).query_id == i,
        forall|i: int|
            0 <= i < r@.len() ==> ((#[trigger] found@[i]) matches Ok(o) ==> {
                &&& r@[i].passage_ids@ == o.passage_ids@
                &&& r@[i].scores@ == o.scores@
                &&& o.token_matrices matches Some(m) ==> r@[i].token_scores_inner@ == m@
                &&& o.token_matrices is None ==> r@[i].token_scores_inner@.len() == 0
            }),
        forall|i: int|
            0 <= i < r@.len() && (#[trigger] found@[i]) is Err ==> r@[i].passage_ids@.len() == 0
                && r@[i].scores@.len() == 0 && r@[i].token_scores_inner@.len() == 0,
{
    let ghost all = found@;
    let mut out: Vec<QueryResultWithTokenScores> = Vec::new();
    for one in it: found
        invariant
            it.seq() == all,
            out@.len() == it.index(),
            forall|i: int| 0 <= i < out@.len() ==> is_token_result(i, #[trigger] out@[i], all[i]),
    {
        let query_id: usize = out.len();
        out.push(
            match one {
                Ok(o) => QueryResultWithTokenScores {
                    query_id,
                    passage_ids: o.passage_ids,
                    scores: o.scores,
                    token_scores_inner: match o.token_matrices {
                        Some(m) => m,
                        None => Vec::new(),
                    },
                },
                Err(_) => QueryResultWithTokenScores {
                    query_id,
                    passage_ids: Vec::new(),
                    scores: Vec::new(),
                    token_scores_inner: Vec::new(),
                },
            },
        );
    }
    out
}

/// The candidates that are kept are candidates, each once.
proof fn lemma_kept(pids: Seq<i64>, approx: Seq<Score>, n_full: int)
    requires
        increasing(pids),
        approx.len() == pids.len(),
        is_ranking(ranking(score_keys(approx)), score_keys(approx)),
        0 <= n_full,
    ensures
        kept_candidates(pids, approx, n_full).no_duplicates(),
        forall|i: int|
            0 <= i < kept_candidates(pids, approx, n_full).len() ==> pids.contains(
                #[trigger] kept_candidates(pids, approx, n_full)[i],
            ),
{
    let kept = kept_candidates(pids, approx, n_full);
    let order = ranking(score_keys(approx));
    if kept_count(pids.len() as int, n_full) != pids.len() {
        assert forall|i: int| 0 <= i < kept.len() implies pids.contains(#[trigger] kept[i]) by {
            assert(order[i] < pids.len());
            assert(kept[i] == pids[order[i] as int]);
        }
        assert forall|i: int, j: int| 0 <= i < j < kept.len() implies kept[i] != kept[j] by {
            assert(ranks_before(score_keys(approx), order[i], order[j]));
            assert(order[i] < pids.len() && order[j] < pids.len());
            if order[i] < order[j] {
                assert(pids[order[i] as int] < pids[order[j] as int]);
            } else {
                assert(pids[order[j] as int] < pids[order[i] as int]);
            }
        }
    }
}

/// What a search returns are passages that a probed cell lists and the subset, if there is one,
/// names. Each is returned once, and no score is better than one before it. There are as many as
/// candidates, but no more than `n_full` or `top_k`.
pub proof fn results_are_ranked_candidates(
    o: SearchOutcome,
    pids: Seq<i64>,
    approx: Seq<Score>,
    n_full: int,
    lengths: Seq<i64>,
    exact: Seq<Score>,
    top_k: int,
    token_scores: bool,
    lists: Seq<Seq<i64>>,
    cells: Seq<i64>,
    subset: Option<Seq<i64>>,
)
    requires
        is_candidates(pids, lists, cells, subset),
        pids.len() <= usize::MAX,
        approx.len() == pids.len(),
        0 <= n_full,
        0 <= top_k,
        exact.len() == kept_candidates(pids, approx, n_full).len(),
        is_outcome(
            o,
            kept_candidates(pids, approx, n_full),
            lengths,
            exact,
            top_k,
            token_scores,
        ),
    ensures
        o.passage_ids@.no_duplicates(),
        o.passage_ids@.len() == result_count(kept_count(pids.len() as int, n_full), top_k),
        o.passage_ids@.len() <= pids.len(),
        o.passage_ids@.len() <= n_full,
        o.passage_ids@.len() <= top_k,
        o.passage_ids@.len() == pids.len() || o.passage_ids@.len() == n_full
            || o.passage_ids@.len() == top_k,
        forall|i: int|
            0 <= i < o.passage_ids@.len() ==> pids.contains(#[trigger] o.passage_ids@[i]),
        o.passage_ids@.len() == o.scores@.len(),
        forall|i: int|
            0 <= i < o.passage_ids@.len() ==> listed_in(lists, cells, #[trigger] o.passage_ids@[i])
                && admits(subset, o.passage_ids@[i]),
        forall|i: int, j: int|
            0 <= i < j < o.scores@.len() ==> (#[trigger] o.scores@[i]).key() >= (
            #[trigger] o.scores@[j]).key(),
{
    let kept = kept_candidates(pids, approx, n_full);
    lemma_ranking_exists(score_keys(approx));
    lemma_ranking_exists(score_keys(exact));
    lemma_kept(pids, approx, n_full);
    let keys = score_keys(exact);
    let order = ranking(keys);
    assert forall|i: int| 0 <= i < o.passage_ids@.len() implies listed_in(
        lists,
        cells,
        #[trigger] o.passage_ids@[i],
    ) && admits(subset, o.passage_ids@[i]) by {
        assert(order[i] < kept.len());
        assert(pids.contains(kept[order[i] as int]));
    }
    assert forall|i: int| 0 <= i < o.passage_ids@.len() implies pids.contains(
        #[trigger] o.passage_ids@[i],
    ) by {
        assert(order[i] < kept.len());
        assert(pids.contains(kept[order[i] as int]));
    }
    assert forall|i: int, j: int| 0 <= i < j < o.scores@.len() implies (#[trigger] o.scores@[i]).key()
        >= (#[trigger] o.scores@[j]).key() by {
        assert(ranks_before(keys, order[i], order[j]));
        assert(order[i] < kept.len() && order[j] < kept.len());
    }
    assert forall|i: int, j: int| 0 <= i < j < o.passage_ids@.len() implies o.passage_ids@[i]
        != o.passage_ids@[j] by {
        assert(ranks_before(keys, order[i], order[j]));
        assert(order[i] < kept.len() && order[j] < kept.len());
    }
}

/// When no more candidates are found than get exact scores and are returned, all of them are
/// returned.
pub proof fn few_candidates_all_returned(
    o: SearchOutcome,
    pids: Seq<i64>,
    approx: Seq<Score>,
    n_full: int,
    lengths: Seq<i64>,
    exact: Seq<Score>,
    top_k: int,
    token_scores: bool,
    p: i64,
)
    requires
        pids.len() <= n_full,
        pids.len() <= top_k,
        pids.len() <= usize::MAX,
        exact.len() == pids.len(),
        pids.contains(p),
        is_outcome(
            o,
            kept_candidates(pids, approx, n_full),
            lengths,
            exact,
            top_k,
            token_scores,
        ),
    ensures
        o.passage_ids@.contains(p),
{
    lemma_ranking_exists(score_keys(exact));
    let keys = score_keys(exact);
    let order = ranking(keys);
    let x = pids.index_of(p);
    assert(keys.len() == pids.len());
    lemma_ranking_covers(order, keys, x);
    let i = choose|i: int| 0 <= i < order.len() && #[trigger] order[i] == x;
    assert(o.passage_ids@[i] == p);
}

/// Pruning keeps the best: no candidate that is dropped has a better approximate score than one
/// that is kept.
pub proof fn pruning_keeps_the_best(
    pids: Seq<i64>,
    approx: Seq<Score>,
    n_full: int,
    kept_at: int,
    dropped_at: int,
)
    requires
        increasing(pids),
        pids.len() <= usize::MAX,
        approx.len() == pids.len(),
        0 <= n_full,
        0 <= kept_at < pids.len(),
        0 <= dropped_at < pids.len(),
        kept_candidates(pids, approx, n_full).contains(pids[kept_at]),
        !kept_candidates(pids, approx, n_full).contains(pids[dropped_at]),
    ensures
        approx[kept_at].key() >= approx[dropped_at].key(),
{
    lemma_ranking_exists(score_keys(approx));
    let kept = kept_candidates(pids, approx, n_full);
    let keys = score_keys(approx);
    let order = ranking(keys);
    if kept_count(pids.len() as int, n_full) == pids.len() {
        assert(kept[dropped_at] == pids[dropped_at]);
    } else {
        let i = kept.index_of(pids[kept_at]);
        lemma_ranking_covers(order, keys, dropped_at);
        let j = choose|j: int| 0 <= j < order.len() && #[trigger] order[j] == dropped_at;
        if j < kept.len() {
            assert(kept[j] == pids[dropped_at]);
        }
        assert(order[i] < pids.len());
        let at = order[i] as int;
        if at < kept_at {
            assert(pids[at] < pids[kept_at]);
        }
        if kept_at < at {
            assert(pids[kept_at] < pids[at]);
        }
        assert(ranks_before(keys, order[i], order[j]));
    }
}

/// Over an index of some documents, the candidates are the documents of the subset that have a token
/// in a probed cell.
pub proof fn candidates_have_probed_tokens(
    pids: Seq<i64>,
    codes: Seq<i64>,
    lens: Seq<i64>,
    cells: int,
    probed: Seq<i64>,
    subset: Option<Seq<i64>>,
    p: i64,
)
    requires
        lens.len() <= i64::MAX,
        cells <= i64::MAX,
        forall|i: int| 0 <= i < probed.len() ==> 0 <= #[trigger] probed[i] < cells,
        is_candidates(pids, cell_lists(codes, lens, 0, cells), probed, subset),
    ensures
        pids.contains(p) <==> {
            &&& 0 <= p < lens.len()
            &&& admits(subset, p)
            &&& exists|i: int|
                0 <= i < probed.len() && doc_codes(codes, lens, p as int).contains(
                    #[trigger] probed[i],
                )
        },
{
    let lists = cell_lists(codes, lens, 0, cells);
    assert forall|i: int| 0 <= i < probed.len() implies (#[trigger] lists[probed[i] as int].contains(
        p,
    ) <==> 0 <= p < lens.len() && doc_codes(codes, lens, p as int).contains(probed[i])) by {
        assert(0 <= probed[i] < cells);
        listed_iff_coded(codes, lens, 0, probed[i], lens.len());
    }
    if pids.contains(p) {
        let i = choose|i: int| 0 <= i < probed.len() && #[trigger] lists[probed[i] as int].contains(p);
        assert(doc_codes(codes, lens, p as int).contains(probed[i]));
    }
    if 0 <= p < lens.len() && exists|i: int|
        0 <= i < probed.len() && doc_codes(codes, lens, p as int).contains(#[trigger] probed[i]) {
        let i = choose|i: int|
            0 <= i < probed.len() && doc_codes(codes, lens, p as int).contains(#[trigger] probed[i]);
        assert(lists[probed[i] as int].contains(p));
    }
}

proof fn lemma_no_codes(lists: Seq<Seq<i64>>, ids: Seq<i64>, i: int)
    requires
        chosen(lists, ids).flatten().len() == 0,
        0 <= i < ids.len(),
    ensures
        lists[ids[i] as int].len() == 0,
{
    lemma_codes_chosen(lists, ids);
}

proof fn lemma_goes_on(
    after: Search,
    before: Search,
    index: LoadedIndex,
    r: Result<SearchTask, SearchError>,
)
    requires
        after.follows(before, index, r),
        0 < after.parameters().batch_size,
    ensures
        match r {
            Ok(SearchTask::ScoreByCells { codes, lengths }) => {
                let at = after.settled_count() - lengths@.len();
                &&& before.settled_count() <= at
                &&& after.settled_count() <= after.candidates().len()
                &&& codes@.len() > 0
                &&& lengths@.len() <= before.parameters().batch_size
                &&& lengths@.len() == before.parameters().batch_size || after.settled_count()
                    == after.candidates().len()
                &&& forall|i: int|
                    0 <= i < lengths@.len() ==> #[trigger] lengths@[i]
                        == index.doc_codes_strided.row_counts()[after.candidates()[at + i] as int]
                &&& codes@ == Seq::new(
                    lengths@.len(),
                    |i: int| index.doc_codes_strided@[after.candidates()[at + i] as int],
                ).flatten()
                &&& after.approximate() == before.approximate() + Seq::new(
                    (at - before.settled_count()) as nat,
                    |i: int| Score { bits: 0 },
                )
                &&& forall|i: int|
                    before.settled_count() <= i < at ==> index.doc_codes_strided@[(
                    #[trigger] after.candidates()[i]) as int].len() == 0
            },
            Ok(SearchTask::ScoreExactly { codes, lengths, buckets }) => {
                let n_full = before.parameters().n_full_scores;
                &&& index.codec.has_bucket_weights
                &&& after.approximate().len() == after.candidates().len()
                &&& 0 < lengths@.len() <= n_full
                &&& lengths@.len() <= after.candidates().len()
                &&& lengths@.len() == n_full || after.reranked() == after.candidates()
                &&& forall|i: int|
                    0 <= i < after.reranked().len() ==> after.candidates().contains(
                        #[trigger] after.reranked()[i],
                    )
                &&& forall|i: int, p: int|
                    0 <= i < after.reranked().len() && 0 <= p < after.candidates().len()
                        && !after.reranked().contains(after.candidates()[p]) ==> exists|q: int|
                        {
                            &&& 0 <= q < after.candidates().len()
                            &&& #[trigger] after.candidates()[q] == #[trigger] after.reranked()[i]
                            &&& after.approximate()[q].key() >= (
                            #[trigger] after.approximate()[p]).key()
                        }
                &&& lengths@ == after.reranked_lengths()
                &&& lengths@.len() == after.reranked().len()
                &&& forall|i: int|
                    0 <= i < lengths@.len() ==> #[trigger] lengths@[i]
                        == index.doc_codes_strided.row_counts()[after.reranked()[i] as int]
                &&& codes@ == Seq::new(
                    lengths@.len(),
                    |i: int| index.doc_codes_strided@[after.reranked()[i] as int],
                ).flatten()
                &&& buckets@ == unpacked_buckets(
                    Seq::new(
                        lengths@.len(),
                        |i: int| index.doc_residuals_strided@[after.reranked()[i] as int],
                    ).flatten(),
                    index.codec.nbits as nat,
                )
            },
            Ok(SearchTask::Finish(o)) => {
                &&& o.passage_ids@.len() == 0
                &&& o.scores@.len() == 0
                &&& o.token_matrices is None
                &&& after.candidates().len() == 0 || before.parameters().n_full_scores == 0
            },
            Err(SearchError::CountMismatch { passages, scores: given }) => {
                &&& passages == after.candidates().len() as usize
                &&& given == after.approximate().len() as usize
                &&& after.candidates().len() != after.approximate().len()
            },
            Err(SearchError::MissingBucketWeights) => {
                &&& !index.codec.has_bucket_weights
                &&& before.parameters().n_full_scores > 0
                &&& after.candidates().len() > 0
                &&& after.candidates().len() == after.approximate().len()
            },
            Err(_) => false,
        },
        r matches Ok(SearchTask::ScoreByCells { .. }) || {
            &&& after.settled_count() == after.candidates().len()
            &&& after.approximate() == before.approximate() + Seq::new(
                (after.candidates().len() - before.settled_count()) as nat,
                |i: int| Score { bits: 0 },
            )
            &&& forall|i: int|
                before.settled_count() <= i < after.candidates().len() ==> index.doc_codes_strided@[(
                #[trigger] after.candidates()[i]) as int].len() == 0
        },
{
    let n = after.candidates().len() as int;
    let n_full = after.parameters().n_full_scores as int;
    let from = before.settled_count() as int;
    let at = choose|at: int|
        {
            &&& before.settled_count() <= at <= n
            &&& #[trigger] after.stops_at(before, index, at)
            &&& if at < n {
                let pids = after.batch(at);
                &&& after.settled_count() == after.batch_end(at)
                &&& codes_of(index, pids).len() > 0
                &&& r matches Ok(SearchTask::ScoreByCells { codes, lengths }) && codes@ == codes_of(
                    index,
                    pids,
                ) && lengths@ == lengths_of(index, pids)
            } else {
                &&& after.settled_count() == at
                &&& is_rerank(r, index, after.candidates(), after.approximate(), n_full)
                &&& r matches Ok(SearchTask::ScoreExactly { .. }) ==> after.reranked()
                    == kept_candidates(after.candidates(), after.approximate(), n_full)
                    && after.reranked_lengths() == lengths_of(index, after.reranked())
            }
        };
    let passed = after.candidates().subrange(from, at);
    assert forall|i: int| from <= i < at implies index.doc_codes_strided@[(
    #[trigger] after.candidates()[i]) as int].len() == 0 by {
        assert(passed[i - from] == after.candidates()[i]);
        lemma_no_codes(index.doc_codes_strided@, passed, i - from);
    }
    assert(zeros(at - from) =~= Seq::new((at - from) as nat, |i: int| Score { bits: 0 }));
    match r {
        Ok(SearchTask::ScoreByCells { codes, lengths }) => {
            let pids = after.batch(at);
            assert(at < n);
            assert(chosen(index.doc_codes_strided@, pids) =~= Seq::new(
                lengths@.len(),
                |i: int| index.doc_codes_strided@[after.candidates()[at + i] as int],
            ));
        },
        Ok(SearchTask::ScoreExactly { codes, lengths, buckets }) => {
            let kept = after.reranked();
            let all = after.candidates();
            assert(all.len() == after.pids.len());
            assert forall|i: int| 0 <= i < kept.len() implies all.contains(#[trigger] kept[i]) by {
                the_best_candidates_are_kept(all, after.approximate(), n_full, 0);
            }
            assert forall|i: int, p: int|
                0 <= i < kept.len() && 0 <= p < all.len() && !kept.contains(all[p]) implies exists|
                q: int,
            |
                {
                    &&& 0 <= q < all.len()
                    &&& #[trigger] all[q] == #[trigger] kept[i]
                    &&& after.approximate()[q].key() >= (#[trigger] after.approximate()[p]).key()
                } by {
                the_best_candidates_are_kept(all, after.approximate(), n_full, p);
            }
            assert(chosen(index.doc_codes_strided@, kept) =~= Seq::new(
                lengths@.len(),
                |i: int| index.doc_codes_strided@[kept[i] as int],
            ));
            assert(chosen(index.doc_residuals_strided@, kept) =~= Seq::new(
                lengths@.len(),
                |i: int| index.doc_residuals_strided@[kept[i] as int],
            ));
        },
        _ => {},
    }
}

/// Once a batch has been scored, its scores are added to those before, and the search goes on where
/// it stood. Documents without tokens get scores of zero as long as no batch has any; the next
/// batch that has is scored, full unless it is the last, with the cells and the lengths of its own
/// documents in order. When all candidates have been passed, as many as get exact scores are scored
/// by the embeddings of their own tokens.
pub proof fn scoring_goes_on(
    after: Search,
    before: Search,
    index: LoadedIndex,
    scores: Seq<Score>,
    r: Result<SearchTask, SearchError>,
)
    requires
        after.takes_scores(before, index, scores, r),
        before.wf(index),
    ensures
        after.parameters() == before.parameters(),
        after.wants_token_scores() == before.wants_token_scores(),
        after.confined_to() == before.confined_to(),
        after.candidates() == before.candidates(),
        match r {
            Ok(SearchTask::ScoreByCells { codes, lengths }) => {
                let at = after.settled_count() - lengths@.len();
                &&& before.settled_count() <= at
                &&& after.settled_count() <= after.candidates().len()
                &&& codes@.len() > 0
                &&& lengths@.len() <= before.parameters().batch_size
                &&& lengths@.len() == before.parameters().batch_size || after.settled_count()
                    == after.candidates().len()
                &&& forall|i: int|
                    0 <= i < lengths@.len() ==> #[trigger] lengths@[i]
                        == index.doc_codes_strided.row_counts()[after.candidates()[at + i] as int]
                &&& codes@ == Seq::new(
                    lengths@.len(),
                    |i: int| index.doc_codes_strided@[after.candidates()[at + i] as int],
                ).flatten()
                &&& after.approximate() == (before.approximate() + scores) + Seq::new(
                    (at - before.settled_count()) as nat,
                    |i: int| Score { bits: 0 },
                )
                &&& forall|i: int|
                    before.settled_count() <= i < at ==> index.doc_codes_strided@[(
                    #[trigger] after.candidates()[i]) as int].len() == 0
            },
            Ok(SearchTask::ScoreExactly { codes, lengths, buckets }) => {
                let n_full = before.parameters().n_full_scores;
                &&& index.codec.has_bucket_weights
                &&& after.approximate().len() == after.candidates().len()
                &&& 0 < lengths@.len() <= n_full
                &&& lengths@.len() <= after.candidates().len()
                &&& lengths@.len() == n_full || after.reranked() == after.candidates()
                &&& forall|i: int|
                    0 <= i < after.reranked().len() ==> after.candidates().contains(
                        #[trigger] after.reranked()[i],
                    )
                &&& forall|i: int, p: int|
                    0 <= i < after.reranked().len() && 0 <= p < after.candidates().len()
                        && !after.reranked().contains(after.candidates()[p]) ==> exists|q: int|
                        {
                            &&& 0 <= q < after.candidates().len()
                            &&& #[trigger] after.candidates()[q] == #[trigger] after.reranked()[i]
                            &&& after.approximate()[q].key() >= (
                            #[trigger] after.approximate()[p]).key()
                        }
                &&& lengths@ == after.reranked_lengths()
                &&& lengths@.len() == after.reranked().len()
                &&& forall|i: int|
                    0 <= i < lengths@.len() ==> #[trigger] lengths@[i]
                        == index.doc_codes_strided.row_counts()[after.reranked()[i] as int]
                &&& codes@ == Seq::new(
                    lengths@.len(),
                    |i: int| index.doc_codes_strided@[after.reranked()[i] as int],
                ).flatten()
                &&& buckets@ == unpacked_buckets(
                    Seq::new(
                        lengths@.len(),
                        |i: int| index.doc_residuals_strided@[after.reranked()[i] as int],
                    ).flatten(),
                    index.codec.nbits as nat,
                )
            },
            Ok(SearchTask::Finish(o)) => {
                &&& o.passage_ids@.len() == 0
                &&& o.scores@.len() == 0
                &&& o.token_matrices is None
                &&& after.candidates().len() == 0 || before.parameters().n_full_scores == 0
            },
            Err(SearchError::CountMismatch { passages, scores: given }) => {
                &&& passages == after.candidates().len() as usize
                &&& given == after.approximate().len() as usize
                &&& after.candidates().len() != after.approximate().len()
            },
            Err(SearchError::MissingBucketWeights) => {
                &&& !index.codec.has_bucket_weights
                &&& before.parameters().n_full_scores > 0
                &&& after.candidates().len() > 0
                &&& after.candidates().len() == after.approximate().len()
            },
            Err(_) => false,
        },
        r matches Ok(SearchTask::ScoreByCells { .. }) || {
            &&& after.settled_count() == after.candidates().len()
            &&& after.approximate() == (before.approximate() + scores) + Seq::new(
                (after.candidates().len() - before.settled_count()) as nat,
                |i: int| Score { bits: 0 },
            )
            &&& forall|i: int|
                before.settled_count() <= i < after.candidates().len() ==> index.doc_codes_strided@[(
                #[trigger] after.candidates()[i]) as int].len() == 0
        },
{
    let start = choose|start: Search|
        {
            &&& start.parameters() == before.parameters()
            &&& start.wants_token_scores() == before.wants_token_scores()
            &&& start.confined_to() == before.confined_to()
            &&& start.candidates() == before.candidates()
            &&& start.settled_count() == before.settled_count()
            &&& start.approximate() == before.approximate() + scores
            &&& #[trigger] after.follows(start, index, r)
        };
    lemma_goes_on(after, start, index, r);
}

/// Once the cells are chosen, the candidates are the passages that they list and the subset names,
/// each once. An index without lists cannot be searched; without candidates the search is over;
/// otherwise scoring begins with the first of them.
pub proof fn scoring_begins(
    after: Search,
    before: Search,
    index: LoadedIndex,
    cells: Seq<i64>,
    r: Result<SearchTask, SearchError>,
)
    requires
        after.takes_cells(before, index, cells, r),
        before.wf(index),
        index.ivf_index_strided is Some,
    ensures
        after.parameters() == before.parameters(),
        after.wants_token_scores() == before.wants_token_scores(),
        after.confined_to() == before.confined_to(),
        forall|i: int, j: int|
            0 <= i < j < after.candidates().len() ==> #[trigger] after.candidates()[i]
                < #[trigger] after.candidates()[j],
        forall|p: i64| #[trigger]
            after.candidates().contains(p) <==> (exists|i: int|
                0 <= i < cells.len() && (
                #[trigger] index.ivf_index_strided->0@[cells[i] as int]).contains(p)) && (
            before.confined_to() matches Some(s) ==> s.contains(p)),
        after.candidates().len() == 0 ==> r matches Ok(SearchTask::Finish(_)),
        match r {
            Ok(SearchTask::ScoreByCells { codes, lengths }) => {
                let at = after.settled_count() - lengths@.len();
                &&& 0 <= at
                &&& after.settled_count() <= after.candidates().len()
                &&& codes@.len() > 0
                &&& lengths@.len() <= before.parameters().batch_size
                &&& lengths@.len() == before.parameters().batch_size || after.settled_count()
                    == after.candidates().len()
                &&& forall|i: int|
                    0 <= i < lengths@.len() ==> #[trigger] lengths@[i]
                        == index.doc_codes_strided.row_counts()[after.candidates()[at + i] as int]
                &&& codes@ == Seq::new(
                    lengths@.len(),
                    |i: int| index.doc_codes_strided@[after.candidates()[at + i] as int],
                ).flatten()
                &&& after.approximate() == Seq::<Score>::empty() + Seq::new(
                    (at - 0) as nat,
                    |i: int| Score { bits: 0 },
                )
                &&& forall|i: int|
                    0 <= i < at ==> index.doc_codes_strided@[(
                    #[trigger] after.candidates()[i]) as int].len() == 0
            },
            Ok(SearchTask::ScoreExactly { codes, lengths, buckets }) => {
                let n_full = before.parameters().n_full_scores;
                &&& index.codec.has_bucket_weights
                &&& after.approximate().len() == after.candidates().len()
                &&& 0 < lengths@.len() <= n_full
                &&& lengths@.len() <= after.candidates().len()
                &&& lengths@.len() == n_full || after.reranked() == after.candidates()
                &&& forall|i: int|
                    0 <= i < after.reranked().len() ==> after.candidates().contains(
                        #[trigger] after.reranked()[i],
                    )
                &&& forall|i: int, p: int|
                    0 <= i < after.reranked().len() && 0 <= p < after.candidates().len()
                        && !after.reranked().contains(after.candidates()[p]) ==> exists|q: int|
                        {
                            &&& 0 <= q < after.candidates().len()
                            &&& #[trigger] after.candidates()[q] == #[trigger] after.reranked()[i]
                            &&& after.approximate()[q].key() >= (
                            #[trigger] after.approximate()[p]).key()
                        }
                &&& lengths@ == after.reranked_lengths()
                &&& lengths@.len() == after.reranked().len()
                &&& forall|i: int|
                    0 <= i < lengths@.len() ==> #[trigger] lengths@[i]
                        == index.doc_codes_strided.row_counts()[after.reranked()[i] as int]
                &&& codes@ == Seq::new(
                    lengths@.len(),
                    |i: int| index.doc_codes_strided@[after.reranked()[i] as int],
                ).flatten()
                &&& buckets@ == unpacked_buckets(
                    Seq::new(
                        lengths@.len(),
                        |i: int| index.doc_residuals_strided@[after.reranked()[i] as int],
                    ).flatten(),
                    index.codec.nbits as nat,
                )
            },
            Ok(SearchTask::Finish(o)) => {
                &&& o.passage_ids@.len() == 0
                &&& o.scores@.len() == 0
                &&& o.token_matrices is None
                &&& after.candidates().len() == 0 || before.parameters().n_full_scores == 0
            },
            Err(SearchError::CountMismatch { passages, scores: given }) => {
                &&& passages == after.candidates().len() as usize
                &&& given == after.approximate().len() as usize
                &&& after.candidates().len() != after.approximate().len()
            },
            Err(SearchError::MissingBucketWeights) => {
                &&& !index.codec.has_bucket_weights
                &&& before.parameters().n_full_scores > 0
                &&& after.candidates().len() > 0
                &&& after.candidates().len() == after.approximate().len()
            },
            Err(_) => false,
        },
        after.candidates().len() == 0 || r matches Ok(SearchTask::ScoreByCells { .. }) || {
            &&& after.settled_count() == after.candidates().len()
            &&& after.approximate() == Seq::<Score>::empty() + Seq::new(
                (after.candidates().len() - 0) as nat,
                |i: int| Score { bits: 0 },
            )
            &&& forall|i: int|
                0 <= i < after.candidates().len() ==> index.doc_codes_strided@[(
                #[trigger] after.candidates()[i]) as int].len() == 0
        },
{
    let t = index.ivf_index_strided->0;
    candidates_are_what_the_cells_list(after.candidates(), t@, cells, before.confined_to());
    if after.candidates().len() > 0 {
        let start = choose|start: Search|
            {
                &&& start.settled_count() == 0
                &&& start.approximate().len() == 0
                &&& #[trigger] after.follows(start, index, r)
            };
        assert(start.approximate() =~= Seq::<Score>::empty());
        lemma_goes_on(after, start, index, r);
    }
}

/// A search fails as not searchable when the cells are in exactly if the index is kept without
/// lists.
pub proof fn only_listed_indices_are_searched(
    after: Search,
    before: Search,
    index: LoadedIndex,
    cells: Seq<i64>,
    r: Result<SearchTask, SearchError>,
)
    requires
        after.takes_cells(before, index, cells, r),
        before.wf(index),
    ensures
        r == Err::<SearchTask, SearchError>(SearchError::NotSearchable)
            <==> index.ivf_index_strided is None,
{
    if index.ivf_index_strided is Some {
        scoring_begins(after, before, index, cells, r);
    }
}

/// A search over the whole index has as many cells chosen for every query token as are asked for.
pub proof fn whole_searches_probe_the_cells_asked_for(
    index: &LoadedIndex,
    params: SearchParameters,
    dim: usize,
    token_scores: bool,
    r: (Search, CellTask),
)
    requires
        call_ensures(Search::begin, (index, params, dim, None::<Vec<i64>>, token_scores), r),
    ensures
        r.1 == (CellTask::Nearest { k: params.n_ivf_probe }),
        r.0.parameters() == params,
        r.0.wants_token_scores() == token_scores,
        r.0.confined_to() is None,
{
}

/// A search that is confined to a subset chooses among the cells of its documents alone, each
/// offered once: as many as are asked for, or all there are. When no document has a token, there is
/// none to choose.
pub proof fn confined_searches_probe_cells_of_the_subset(
    index: &LoadedIndex,
    params: SearchParameters,
    dim: usize,
    subset: Vec<i64>,
    token_scores: bool,
    r: (Search, CellTask),
    c: i64,
)
    requires
        call_ensures(Search::begin, (index, params, dim, Some(subset), token_scores), r),
    ensures
        r.0.confined_to() == Some(subset@),
        r.1 is NoCells <==> forall|i: int|
            0 <= i < subset@.len() ==> (
            #[trigger] index.doc_codes_strided@[subset@[i] as int]).len() == 0,
        r.1 is NoCells || r.1 is NearestAmong,
        r.1 matches CellTask::NearestAmong { cells, k } ==> {
            &&& cells@.no_duplicates()
            &&& cells@.contains(c) <==> exists|i: int|
                0 <= i < subset@.len() && (
                #[trigger] index.doc_codes_strided@[subset@[i] as int]).contains(c)
            &&& k <= params.n_ivf_probe
            &&& k <= cells@.len()
            &&& k == params.n_ivf_probe || k == cells@.len()
        },
{
}

/// Queries are searched for when they have three sizes and the index has lists; the first size is
/// their number and the last their dimension.
pub proof fn queries_have_three_sizes(
    index: &LoadedIndex,
    shape: &Vec<i64>,
    r: Result<(i64, i64), SearchError>,
)
    requires
        call_ensures(check_queries, (index, shape), r),
    ensures
        r matches Ok((count, dim)) ==> shape@.len() == 3 && count == shape@.first() && dim
            == shape@.last(),
        r is Ok <==> index.ivf_index_strided is Some && shape@.len() == 3,
        r == Err::<(i64, i64), SearchError>(SearchError::NotSearchable)
            <==> index.ivf_index_strided is None,
        r == Err::<(i64, i64), SearchError>(SearchError::BadQueryShape)
            <==> index.ivf_index_strided is Some && shape@.len() != 3,
{
}

/// A query is confined to the list at its own place, and to none where there is no such list.
pub proof fn queries_have_their_own_subsets(
    subset: &Option<Vec<Vec<i64>>>,
    i: usize,
    r: Option<Vec<i64>>,
)
    requires
        call_ensures(query_subset, (subset, i), r),
    ensures
        r is Some <==> subset is Some && i < subset->0@.len(),
        r is Some ==> r->0@ == subset->0@[i as int]@,
{
}

/// Every search has a result of its own under its own number: what it found, or nothing where it
/// failed.
pub proof fn results_are_those_of_their_searches(
    found: Vec<Result<SearchOutcome, SearchError>>,
    plain: Vec<QueryResult>,
    with_tokens: Vec<QueryResultWithTokenScores>,
    i: int,
)
    requires
        call_ensures(search_many, (found,), plain),
        call_ensures(search_many_with_token_scores, (found,), with_tokens),
        0 <= i < found@.len(),
    ensures
        plain@.len() == found@.len(),
        with_tokens@.len() == found@.len(),
        plain@[i].query_id == i,
        with_tokens@[i].query_id == i,
        found@[i] is Ok ==> {
            let o = found@[i]->Ok_0;
            &&& plain@[i].passage_ids@ == o.passage_ids@
            &&& plain@[i].scores@ == o.scores@
            &&& with_tokens@[i].passage_ids@ == o.passage_ids@
            &&& with_tokens@[i].scores@ == o.scores@
            &&& o.token_matrices is Some ==> with_tokens@[i].token_scores_inner@
                == o.token_matrices->0@
            &&& o.token_matrices is None ==> with_tokens@[i].token_scores_inner@.len() == 0
        },
        found@[i] is Err ==> {
            &&& plain@[i].passage_ids@.len() == 0
            &&& plain@[i].scores@.len() == 0
            &&& with_tokens@[i].passage_ids@.len() == 0
            &&& with_tokens@[i].scores@.len() == 0
            &&& with_tokens@[i].token_scores_inner@.len() == 0
        },
{
}

} // verus!
