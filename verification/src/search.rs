//! Searching an index: probing cells, approximate scoring, re-ranking, and the final selection.

use vstd::prelude::*;

use crate::codec::ResidualCodec;
use crate::order::{
    increasing, intersect_sorted_unique, is_ranking, lemma_ranking_exists, rank_descending,
    ranking, rankings_descend, same_members, sort_unique, sorted_lists_hold_the_values,
    sorted_unique,
};
use crate::packing::{fills_byte, lemma_fill};
use crate::score::{keys_follow_the_numbers, Score};
use crate::strided::{
    are_lengths, check_ids, chosen, copy_ids, ids_in, split_lists, total_rows, StridedTensor,
};

verus! {

/// Search configuration.
#[derive(Clone, Copy, Debug, PartialEq, Eq, Structural)]
pub struct SearchParameters {
    /// Number of documents per batch of approximate scores.
    pub batch_size: usize,
    /// Number of documents to re-rank with exact scores.
    pub n_full_scores: usize,
    /// Number of final results to return per query.
    pub top_k: usize,
    /// Number of cells to probe during the initial search.
    pub n_ivf_probe: usize,
}

impl SearchParameters {
    /// Makes a configuration.
    pub fn new(batch_size: usize, n_full_scores: usize, top_k: usize, n_ivf_probe: usize) -> (r:
        Self)
        ensures
            r.batch_size == batch_size,
            r.n_full_scores == n_full_scores,
            r.top_k == top_k,
            r.n_ivf_probe == n_ivf_probe,
    {
        SearchParameters { batch_size, n_full_scores, top_k, n_ivf_probe }
    }
}

/// An index in memory.
pub struct LoadedIndex {
    /// The tables that read residuals.
    pub codec: ResidualCodec,
    /// For every cell, the passages with a token in it. An index that is kept without it cannot be
    /// searched.
    pub ivf_index_strided: Option<StridedTensor<i64>>,
    /// For every document, the cells of its tokens.
    pub doc_codes_strided: StridedTensor<i64>,
    /// For every document, the residuals of its tokens.
    pub doc_residuals_strided: StridedTensor<u8>,
}

impl LoadedIndex {
    /// The parts agree: every token has a cell and a residual, and cells list documents.
    pub open spec fn wf(&self) -> bool {
        &&& self.codec.wf()
        &&& self.doc_codes_strided.wf()
        &&& self.doc_codes_strided.row_width() == 1
        &&& self.doc_residuals_strided.wf()
        &&& self.doc_residuals_strided.row_counts() == self.doc_codes_strided.row_counts()
        &&& self.ivf_index_strided matches Some(t) ==> {
            &&& t.wf()
            &&& t.row_width() == 1
            &&& ids_in(t.entries(), self.doc_codes_strided@.len())
        }
    }

    /// Embeddings of dimension `dim` can be read from the residuals, if the codec reads any.
    pub open spec fn stores_dimension(&self, dim: int) -> bool {
        self.codec.has_bucket_weights ==> {
            &&& fills_byte(self.codec.nbits as nat)
            &&& (dim * self.codec.nbits) % 8 == 0
            &&& self.doc_residuals_strided.row_width() == (dim * self.codec.nbits) / 8
        }
    }
}

/// The parts of an index account for one another: every token has a cell and a residual, and every
/// passage in a list is a document.
pub open spec fn parts_agree(
    codes: Seq<i64>,
    residuals: Seq<u8>,
    doclens: Seq<i64>,
    width: int,
    ivf: Option<(Seq<i64>, Seq<i64>)>,
) -> bool {
    &&& are_lengths(doclens)
    &&& total_rows(doclens) == codes.len()
    &&& total_rows(doclens) * width == residuals.len()
    &&& ivf matches Some((pids, lengths)) ==> {
        &&& ids_in(pids, doclens.len())
        &&& are_lengths(lengths)
        &&& total_rows(lengths) == pids.len()
    }
}

/// The values in an optional pair of lists.
pub open spec fn pair_of(ivf: Option<(Vec<i64>, Vec<i64>)>) -> Option<(Seq<i64>, Seq<i64>)> {
    match ivf {
        Some((pids, lengths)) => Some((pids@, lengths@)),
        None => None,
    }
}

impl LoadedIndex {
    /// Puts an index together from the codes and residuals of all tokens, the lengths of the
    /// documents, and, if it can be searched, the passages of all cells with their numbers. Nothing,
    /// unless the parts account for one another.
    pub fn new(
        codec: ResidualCodec,
        codes: Vec<i64>,
        residuals: Vec<u8>,
        doclens: Vec<i64>,
        width: usize,
        ivf: Option<(Vec<i64>, Vec<i64>)>,
    ) -> (r: Option<Self>)
        requires
            codec.wf(),
        ensures
            r is Some <==> parts_agree(codes@, residuals@, doclens@, width as int, pair_of(ivf)),
            r is Some <==> {
                &&& forall|i: int| 0 <= i < doclens@.len() ==> 0 <= #[trigger] doclens@[i]
                &&& total_rows(doclens@) == codes@.len()
                &&& total_rows(doclens@) * width == residuals@.len()
                &&& ivf matches Some((pids, lengths)) ==> {
                    &&& forall|i: int|
                        0 <= i < pids@.len() ==> 0 <= #[trigger] pids@[i] < doclens@.len()
                    &&& forall|i: int| 0 <= i < lengths@.len() ==> 0 <= #[trigger] lengths@[i]
                    &&& total_rows(lengths@) == pids@.len()
                }
            },
            r matches Some(t) ==> (t.ivf_index_strided is Some <==> ivf is Some),
            r matches Some(t) ==> {
                &&& t.wf()
                &&& t.codec == codec
                &&& t.doc_codes_strided@ == split_lists(codes@, doclens@, 1)
                &&& t.doc_codes_strided.row_counts() == doclens@
                &&& t.doc_residuals_strided@ == split_lists(residuals@, doclens@, width as nat)
                &&& t.doc_residuals_strided.row_width() == width
                &&& match pair_of(ivf) {
                    Some((pids, lengths)) => t.ivf_index_strided matches Some(l) && l@
                        == split_lists(pids, lengths, 1) && l.row_counts() == lengths,
                    None => t.ivf_index_strided is None,
                }
            },
    {
        let docs: usize = doclens.len();
        let lens = copy_ids(&doclens);
        let doc_codes_strided = match StridedTensor::new(codes, lens, 1) {
            Some(t) => t,
            None => {
                return None;
            },
        };
        let doc_residuals_strided = match StridedTensor::new(residuals, doclens, width) {
            Some(t) => t,
            None => {
                return None;
            },
        };
        proof {
            doc_codes_strided.lemma_parts();
        }
        let ivf_index_strided = match ivf {
            None => None,
            Some((pids, lengths)) => {
                if !check_ids(&pids, docs) {
                    return None;
                }
                match StridedTensor::new(pids, lengths, 1) {
                    Some(t) => Some(t),
                    None => {
                        return None;
                    },
                }
            },
        };
        Some(LoadedIndex { codec, ivf_index_strided, doc_codes_strided, doc_residuals_strided })
    }

    /// Whether embeddings of dimension `dim` can be read from the residuals, if the codec reads
    /// any.
    pub fn can_decode(&self, dim: usize) -> (r: bool)
        requires
            self.wf(),
        ensures
            r == self.stores_dimension(dim as int),
            r <==> !self.codec.has_bucket_weights || ((self.codec.nbits == 1 || self.codec.nbits
                == 2 || self.codec.nbits == 4 || self.codec.nbits == 8) && dim * self.codec.nbits
                == 8 * self.doc_residuals_strided.row_width()),
    {
        if !self.codec.has_bucket_weights {
            return true;
        }
        let nbits: usize = self.codec.nbits as usize;
        if nbits > 8 || 8 % nbits != 0 {
            assert(8nat % 1nat == 0 && 8nat % 2nat == 0 && 8nat % 4nat == 0 && 8nat % 8nat == 0);
            return false;
        }
        proof {
            lemma_fill(nbits as nat);
        }
        assert(dim * nbits <= 0xffff_ffff_ffff_ffff * 8) by (nonlinear_arith)
            requires
                0 <= dim <= 0xffff_ffff_ffff_ffff,
                0 <= nbits <= 8,
        ;
        let bits: u128 = (dim as u128) * (nbits as u128);
        bits % 8 == 0 && self.doc_residuals_strided.width() as u128 == bits / 8
    }
}

/// Why a search fails.
#[derive(Clone, Copy, Debug, PartialEq, Eq, Structural)]
pub enum SearchError {
    /// The index is kept without lists of passages.
    NotSearchable,
    /// The queries are not given by query, token and dimension.
    BadQueryShape,
    /// There are not as many approximate scores as candidates.
    CountMismatch { passages: usize, scores: usize },
    /// The codec does not have the value of every bucket.
    MissingBucketWeights,
    /// Cells could not be chosen, or documents not be scored.
    OutsideFailure,
}

/// The part of a batch of token scores that belongs to one document.
#[derive(Clone, Copy, Debug, PartialEq, Eq, Structural)]
pub struct TokenMatrix {
    /// Place of the document in the batch.
    pub place: usize,
    /// Number of its tokens.
    pub doc_len: i64,
}

/// What a search finds.
pub struct SearchOutcome {
    /// Passages, the best first.
    pub passage_ids: Vec<i64>,
    /// Their scores.
    pub scores: Vec<Score>,
    /// Where their token scores stand, if these were asked for and there are any passages.
    pub token_matrices: Option<Vec<TokenMatrix>>,
}

/// Cells from which the probed ones are chosen.
pub enum CellTask {
    /// The `k` nearest of all cells.
    Nearest { k: usize },
    /// The `k` nearest of these cells.
    NearestAmong { cells: Vec<i64>, k: usize },
    /// There is no cell to choose from.
    NoCells,
}

/// What is to be done next in a search.
pub enum SearchTask {
    /// Score documents by the cells of their tokens.
    ScoreByCells { codes: Vec<i64>, lengths: Vec<i64> },
    /// Score documents by their embeddings, each given by its cell and its bucket numbers.
    ScoreExactly { codes: Vec<i64>, lengths: Vec<i64>, buckets: Vec<i64> },
    /// Nothing: the search is over.
    Finish(SearchOutcome),
}

/// The ids in an optional list.
pub open spec fn ids_of(subset: Option<Vec<i64>>) -> Option<Seq<i64>> {
    match subset {
        Some(s) => Some(s@),
        None => None,
    }
}

/// The passage is in the subset, if there is one.
pub open spec fn admits(subset: Option<Seq<i64>>, p: i64) -> bool {
    match subset {
        Some(s) => s.contains(p),
        None => true,
    }
}

/// Some probed cell lists the passage.
pub open spec fn listed_in(lists: Seq<Seq<i64>>, cells: Seq<i64>, p: i64) -> bool {
    exists|i: int| 0 <= i < cells.len() && #[trigger] lists[cells[i] as int].contains(p)
}

/// The candidates: in increasing order, the passages of the subset that a probed cell lists.
pub open spec fn is_candidates(
    r: Seq<i64>,
    lists: Seq<Seq<i64>>,
    cells: Seq<i64>,
    subset: Option<Seq<i64>>,
) -> bool {
    &&& increasing(r)
    &&& forall|p: i64|
        #[trigger] r.contains(p) <==> listed_in(lists, cells, p) && admits(subset, p)
}

pub proof fn lemma_flatten_contains(lists: Seq<Seq<i64>>, n: nat, p: i64)
    requires
        n <= lists.len(),
    ensures
        lists.take(n as int).flatten().contains(p) <==> exists|i: int|
            0 <= i < n && #[trigger] lists[i].contains(p),
    decreases n,
{
    if n == 0 {
        assert(lists.take(0) =~= Seq::empty());
    } else {
        let m = (n - 1) as nat;
        lemma_flatten_contains(lists, m, p);
        let last = lists[n - 1];
        let before = lists.take(m as int).flatten();
        let whole = lists.take(n as int).flatten();
        assert(lists.take(n as int) =~= lists.take(m as int).push(last));
        lists.take(m as int).lemma_flatten_push(last);
        assert(whole == before + last);
        if before.contains(p) {
            let i = before.index_of(p);
            assert(whole[i] == p);
        }
        if last.contains(p) {
            let i = last.index_of(p);
            assert(whole[before.len() + i] == p);
        }
        if whole.contains(p) {
            let i = whole.index_of(p);
            if i < before.len() {
                assert(before[i] == p);
            } else {
                assert(last[i - before.len()] == p);
                assert(lists[n - 1].contains(p));
            }
        }
    }
}

proof fn lemma_listed(lists: Seq<Seq<i64>>, cells: Seq<i64>, ids: Seq<i64>, p: i64)
    requires
        same_members(ids, cells),
    ensures
        chosen(lists, ids).flatten().contains(p) <==> listed_in(lists, cells, p),
{
    let picked = chosen(lists, ids);
    lemma_flatten_contains(picked, picked.len(), p);
    assert(picked.take(picked.len() as int) =~= picked);
    if picked.flatten().contains(p) {
        let i = choose|i: int| 0 <= i < picked.len() && #[trigger] picked[i].contains(p);
        assert(ids.contains(ids[i]));
        assert(cells.contains(ids[i]));
        let j = cells.index_of(ids[i]);
        assert(lists[cells[j] as int].contains(p));
    }
    if listed_in(lists, cells, p) {
        let i = choose|i: int| 0 <= i < cells.len() && #[trigger] lists[cells[i] as int].contains(p);
        assert(cells.contains(cells[i]));
        assert(ids.contains(cells[i]));
        let j = ids.index_of(cells[i]);
        assert(picked[j].contains(p));
    }
}

/// Filters passages by a subset. The passages are increasing; the subset may be in any order, and
/// name passages twice.
pub fn filter_passage_ids_with_subset(passage_ids: &Vec<i64>, subset: &Vec<i64>) -> (r: Vec<i64>)
    requires
        increasing(passage_ids@),
    ensures
        increasing(r@),
        forall|i: int, j: int| 0 <= i < j < r@.len() ==> #[trigger] r@[i] < #[trigger] r@[j],
        forall|p: i64|
            #[trigger] r@.contains(p) <==> passage_ids@.contains(p) && subset@.contains(p),
{
    let wanted = sort_unique(subset);
    let r = intersect_sorted_unique(passage_ids, &wanted);
    assert forall|p: i64| #[trigger] r@.contains(p) <==> passage_ids@.contains(p)
        && subset@.contains(p) by {
        assert(wanted@.contains(p) <==> subset@.contains(p));
    }
    r
}

/// Brings together the candidates that the probed cells list.
pub fn gather_candidates(
    ivf: &StridedTensor<i64>,
    cells: &Vec<i64>,
    subset: &Option<Vec<i64>>,
) -> (r: Vec<i64>)
    requires
        ivf.wf(),
        ids_in(cells@, ivf@.len()),
    ensures
        is_candidates(r@, ivf@, cells@, ids_of(*subset)),
        forall|i: int, j: int| 0 <= i < j < r@.len() ==> #[trigger] r@[i] < #[trigger] r@[j],
        forall|p: i64| #[trigger]
            r@.contains(p) <==> (exists|i: int|
                0 <= i < cells@.len() && (#[trigger] ivf@[cells@[i] as int]).contains(p)) && (
            subset matches Some(s) ==> s@.contains(p)),
{
    let unique = sort_unique(cells);
    proof {
        assert forall|i: int| 0 <= i < unique@.len() implies 0 <= #[trigger] unique@[i]
            < ivf@.len() by {
            assert(unique@.contains(unique@[i]));
            assert(cells@.contains(unique@[i]));
            let j = cells@.index_of(unique@[i]);
            assert(0 <= cells@[j] < ivf@.len());
        }
    }
    let (listed, _) = ivf.lookup(&unique);
    let all = sort_unique(&listed);
    proof {
        assert forall|p: i64| #[trigger] all@.contains(p) <==> listed_in(ivf@, cells@, p) by {
            lemma_listed(ivf@, cells@, unique@, p);
            assert(all@.contains(p) <==> listed@.contains(p));
        }
    }
    match subset {
        None => all,
        Some(s) => filter_passage_ids_with_subset(&all, s),
    }
}

/// Whether `t` is the choice of cells that a search begins with.
pub open spec fn is_cell_task(
    t: CellTask,
    doc_codes: Seq<Seq<i64>>,
    n_ivf_probe: usize,
    subset: Option<Seq<i64>>,
) -> bool {
    match subset {
        None => t matches CellTask::Nearest { k } && k == n_ivf_probe,
        Some(s) => {
            let codes = chosen(doc_codes, s).flatten();
            let cells = sorted_unique(codes);
            if codes.len() == 0 {
                t is NoCells
            } else {
                t matches CellTask::NearestAmong { cells: c, k } && c@ == cells && k == if n_ivf_probe
                    < cells.len() {
                    n_ivf_probe as int
                } else {
                    cells.len() as int
                }
            }
        },
    }
}

pub proof fn lemma_codes_chosen(doc_codes: Seq<Seq<i64>>, ids: Seq<i64>)
    ensures
        forall|c: i64| #[trigger]
            chosen(doc_codes, ids).flatten().contains(c) <==> exists|i: int|
                0 <= i < ids.len() && (#[trigger] doc_codes[ids[i] as int]).contains(c),
        chosen(doc_codes, ids).flatten().len() == 0 <==> forall|i: int|
            0 <= i < ids.len() ==> (#[trigger] doc_codes[ids[i] as int]).len() == 0,
{
    let picked = chosen(doc_codes, ids);
    let codes = picked.flatten();
    assert(picked.take(picked.len() as int) =~= picked);
    assert forall|c: i64| #[trigger] codes.contains(c) <==> exists|i: int|
        0 <= i < ids.len() && (#[trigger] doc_codes[ids[i] as int]).contains(c) by {
        lemma_flatten_contains(picked, picked.len(), c);
        if codes.contains(c) {
            let i = choose|i: int| 0 <= i < picked.len() && #[trigger] picked[i].contains(c);
            assert(doc_codes[ids[i] as int].contains(c));
        }
        if exists|i: int| 0 <= i < ids.len() && (#[trigger] doc_codes[ids[i] as int]).contains(c) {
            let i = choose|i: int|
                0 <= i < ids.len() && (#[trigger] doc_codes[ids[i] as int]).contains(c);
            assert(picked[i].contains(c));
        }
    }
    if codes.len() == 0 {
        assert forall|i: int| 0 <= i < ids.len() implies (#[trigger] doc_codes[ids[i] as int]).len()
            == 0 by {
            let list = doc_codes[ids[i] as int];
            if list.len() > 0 {
                assert(list.contains(list[0]));
                assert(codes.contains(list[0]));
            }
        }
    } else {
        assert(codes.contains(codes[0]));
    }
}

/// The choice of cells that a search begins with. With a subset, only the cells of its documents
/// are worth probing.
pub fn choose_cells(
    doc_codes: &StridedTensor<i64>,
    n_ivf_probe: usize,
    subset: &Option<Vec<i64>>,
) -> (r: CellTask)
    requires
        doc_codes.wf(),
        subset matches Some(s) ==> ids_in(s@, doc_codes@.len()),
    ensures
        is_cell_task(r, doc_codes@, n_ivf_probe, ids_of(*subset)),
        subset is None ==> r == (CellTask::Nearest { k: n_ivf_probe }),
        subset matches Some(s) ==> {
            &&& r is NoCells <==> forall|i: int|
                0 <= i < s@.len() ==> (#[trigger] doc_codes@[s@[i] as int]).len() == 0
            &&& r !is Nearest
            &&& r matches CellTask::NearestAmong { cells, k } ==> {
                &&& forall|i: int, j: int|
                    0 <= i < j < cells@.len() ==> #[trigger] cells@[i] < #[trigger] cells@[j]
                &&& forall|c: i64| #[trigger]
                    cells@.contains(c) <==> exists|i: int|
                        0 <= i < s@.len() && (#[trigger] doc_codes@[s@[i] as int]).contains(c)
                &&& k <= n_ivf_probe
                &&& k <= cells@.len()
                &&& k == n_ivf_probe || k == cells@.len()
            }
        },
{
    match subset {
        None => CellTask::Nearest { k: n_ivf_probe },
        Some(s) => {
            let (codes, _) = doc_codes.lookup(s);
            proof {
                lemma_codes_chosen(doc_codes@, s@);
            }
            if codes.len() == 0 {
                return CellTask::NoCells;
            }
            let cells = sort_unique(&codes);
            let k: usize = if n_ivf_probe < cells.len() {
                n_ivf_probe
            } else {
                cells.len()
            };
            CellTask::NearestAmong { cells, k }
        },
    }
}

/// What orders scores.
pub open spec fn score_keys(scores: Seq<Score>) -> Seq<i64> {
    Seq::new(scores.len(), |i: int| scores[i].key() as i64)
}

/// The places of scores, the best first.
pub fn rank_scores(scores: &Vec<Score>) -> (r: Vec<usize>)
    ensures
        r@ == ranking(score_keys(scores@)),
        is_ranking(r@, score_keys(scores@)),
        r@.len() == scores@.len(),
        r@.no_duplicates(),
        forall|i: int| 0 <= i < r@.len() ==> (#[trigger] r@[i]) < scores@.len(),
        forall|i: int, j: int|
            0 <= i < j < r@.len() ==> scores@[#[trigger] r@[i] as int].key() >= scores@[
                #[trigger] r@[j] as int].key(),
        forall|i: int, j: int|
            0 <= i < j < r@.len() && scores@[#[trigger] r@[i] as int].key() == scores@[
                #[trigger] r@[j] as int].key() ==> r@[i] < r@[j],
{
    let mut keys: Vec<i64> = Vec::new();
    let mut i: usize = 0;
    while i < scores.len()
        invariant
            i <= scores@.len(),
            keys@ == score_keys(scores@.take(i as int)),
        decreases scores@.len() - i,
    {
        keys.push(scores[i].order_key());
        i += 1;
        assert(keys@ =~= score_keys(scores@.take(i as int)));
    }
    assert(scores@.take(i as int) =~= scores@);
    let r = rank_descending(&keys);
    assert forall|p: int| 0 <= p < keys@.len() implies #[trigger] keys@[p] == scores@[p].key() by {}
    r
}

/// How many of `n` candidates are decompressed and get exact scores: `n_full` of them, or all if
/// there are no more.
pub open spec fn kept_count(n: int, n_full: int) -> int {
    if n_full < n {
        n_full
    } else {
        n
    }
}

/// The candidates that are decompressed: the best by approximate score, or all of them as they
/// are.
pub open spec fn kept_candidates(pids: Seq<i64>, scores: Seq<Score>, n_full: int) -> Seq<i64> {
    let count = kept_count(pids.len() as int, n_full);
    if count == pids.len() {
        pids
    } else {
        Seq::new(count as nat, |i: int| pids[ranking(score_keys(scores))[i] as int])
    }
}

/// Selects the candidates that are decompressed.
pub fn prune_candidates(pids: &Vec<i64>, scores: &Vec<Score>, n_full: usize) -> (r: Vec<i64>)
    requires
        pids@.len() == scores@.len(),
    ensures
        r@ == kept_candidates(pids@, scores@, n_full as int),
        forall|i: int| 0 <= i < r@.len() ==> pids@.contains(#[trigger] r@[i]),
        n_full >= pids@.len() ==> r@ == pids@,
        n_full < pids@.len() ==> r@.len() == n_full && exists|at: Seq<usize>|
            {
                &&& #[trigger] at.no_duplicates()
                &&& at.len() == n_full
                &&& forall|i: int|
                    0 <= i < at.len() ==> (#[trigger] at[i]) < pids@.len() && r@[i]
                        == pids@[at[i] as int]
                &&& forall|i: int, j: int|
                    0 <= i < j < at.len() ==> scores@[#[trigger] at[i] as int].key() >= scores@[
                        #[trigger] at[j] as int].key()
                &&& forall|i: int, q: usize|
                    0 <= i < at.len() && q < pids@.len() && !#[trigger] at.contains(q)
                        ==> scores@[#[trigger] at[i] as int].key() >= scores@[q as int].key()
            },
{
    if n_full >= pids.len() {
        return copy_ids(pids);
    }
    let mut out: Vec<i64> = Vec::new();
    let mut i: usize = 0;
    let order = rank_scores(scores);
    let ghost want = kept_candidates(pids@, scores@, n_full as int);
    while i < n_full
        invariant
            i <= n_full <= pids@.len(),
            pids@.len() == scores@.len(),
            n_full == want.len(),
            want == Seq::new(n_full as nat, |k: int| pids@[order@[k] as int]),
            is_ranking(order@, score_keys(scores@)),
            out@ == want.take(i as int),
            forall|k: int| 0 <= k < out@.len() ==> pids@.contains(#[trigger] out@[k]),
        decreases n_full - i,
    {
        let n: usize = scores.len();
        assert(order@[i as int] < n);
        out.push(pids[order[i]]);
        i += 1;
        assert(out@ =~= want.take(i as int));
    }
    assert(out@ =~= want);
    proof {
        lemma_first_places(order@, scores@, n_full as int);
    }
    out
}

/// The first places of a ranking hold the best scores.
proof fn lemma_first_places(order: Seq<usize>, scores: Seq<Score>, n: int)
    requires
        is_ranking(order, score_keys(scores)),
        0 <= n <= scores.len(),
    ensures
        order.take(n).no_duplicates(),
        order.take(n).len() == n,
        forall|i: int| 0 <= i < n ==> (#[trigger] order.take(n)[i]) < scores.len(),
        forall|i: int| 0 <= i < n ==> (#[trigger] order.take(n)[i]) == order[i],
        forall|i: int, j: int|
            0 <= i < j < n ==> scores[#[trigger] order.take(n)[i] as int].key() >= scores[
                #[trigger] order.take(n)[j] as int].key(),
        forall|i: int, q: usize|
            0 <= i < n && q < scores.len() && !#[trigger] order.take(n).contains(q)
                ==> scores[#[trigger] order.take(n)[i] as int].key() >= scores[q as int].key(),
{
    let keys = score_keys(scores);
    let at = order.take(n);
    rankings_descend(order, keys);
    assert forall|p: int| 0 <= p < keys.len() implies #[trigger] keys[p] == scores[p].key() by {}
    assert forall|i: int, j: int| 0 <= i < j < n implies scores[#[trigger] at[i] as int].key()
        >= scores[#[trigger] at[j] as int].key() by {
        assert(keys[order[i] as int] >= keys[order[j] as int]);
    }
    assert forall|i: int, q: usize|
        0 <= i < n && q < scores.len() && !#[trigger] at.contains(q) implies scores[
        #[trigger] at[i] as int].key() >= scores[q as int].key() by {
        assert(order.contains(q));
        let j = order.index_of(q);
        if j < n {
            assert(at[j] == q);
        }
        assert(keys[order[i] as int] >= keys[order[j] as int]);
    }
}

/// How many of `n` passages are returned.
pub open spec fn result_count(n: int, top_k: int) -> int {
    if top_k < n {
        top_k
    } else {
        n
    }
}

/// The outcome for candidates with these exact scores: the best first, and no more than `top_k`.
pub open spec fn is_outcome(
    o: SearchOutcome,
    kept: Seq<i64>,
    lengths: Seq<i64>,
    exact: Seq<Score>,
    top_k: int,
    token_scores: bool,
) -> bool {
    let count = result_count(kept.len() as int, top_k) as nat;
    let order = ranking(score_keys(exact));
    &&& o.passage_ids@ == Seq::new(count, |i: int| kept[order[i] as int])
    &&& o.scores@ == Seq::new(count, |i: int| exact[order[i] as int])
    &&& if token_scores {
        o.token_matrices matches Some(m) && m@ == Seq::new(
            count,
            |i: int| TokenMatrix { place: order[i], doc_len: lengths[order[i] as int] },
        )
    } else {
        o.token_matrices is None
    }
}

/// Selects the final results.
pub fn select_results(
    kept: &Vec<i64>,
    lengths: &Vec<i64>,
    exact: &Vec<Score>,
    top_k: usize,
    token_scores: bool,
) -> (r: SearchOutcome)
    requires
        kept@.len() == exact@.len(),
        kept@.len() == lengths@.len(),
    ensures
        is_outcome(r, kept@, lengths@, exact@, top_k as int, token_scores),
        r.passage_ids@.len() <= top_k,
        r.passage_ids@.len() <= kept@.len(),
        r.passage_ids@.len() == top_k || r.passage_ids@.len() == kept@.len(),
        r.scores@.len() == r.passage_ids@.len(),
        exists|at: Seq<usize>|
            {
                &&& #[trigger] at.no_duplicates()
                &&& at.len() == r.passage_ids@.len()
                &&& forall|i: int|
                    0 <= i < at.len() ==> (#[trigger] at[i]) < kept@.len() && r.passage_ids@[i]
                        == kept@[at[i] as int] && r.scores@[i] == exact@[at[i] as int]
                &&& forall|i: int, q: usize|
                    0 <= i < at.len() && q < kept@.len() && !#[trigger] at.contains(q)
                        ==> exact@[#[trigger] at[i] as int].key() >= exact@[q as int].key()
                &&& r.token_matrices matches Some(m) ==> forall|i: int|
                    0 <= i < at.len() ==> (#[trigger] m@[i]).place == at[i]
            },
        forall|i: int, j: int|
            0 <= i < j < r.scores@.len() ==> (#[trigger] r.scores@[i]).key() >= (
            #[trigger] r.scores@[j]).key(),
        r.token_matrices is Some <==> token_scores,
        r.token_matrices matches Some(m) ==> m@.len() == r.passage_ids@.len() && forall|i: int|
            0 <= i < m@.len() ==> {
                let p = (#[trigger] m@[i]).place as int;
                &&& p < kept@.len()
                &&& kept@[p] == r.passage_ids@[i]
                &&& exact@[p] == r.scores@[i]
                &&& m@[i].doc_len == lengths@[p]
            },
{
    let order = rank_scores(exact);
    let count: usize = if top_k < kept.len() {
        top_k
    } else {
        kept.len()
    };
    let mut passage_ids: Vec<i64> = Vec::new();
    let mut scores: Vec<Score> = Vec::new();
    let mut matrices: Vec<TokenMatrix> = Vec::new();
    let mut i: usize = 0;
    while i < count
        invariant
            i <= count <= kept@.len(),
            kept@.len() == exact@.len(),
            kept@.len() == lengths@.len(),
            is_ranking(order@, score_keys(exact@)),
            passage_ids@ == Seq::new(i as nat, |k: int| kept@[order@[k] as int]),
            scores@ == Seq::new(i as nat, |k: int| exact@[order@[k] as int]),
            matrices@ == Seq::new(
                i as nat,
                |k: int| TokenMatrix { place: order@[k], doc_len: lengths@[order@[k] as int] },
            ),
        decreases count - i,
    {
        let n: usize = exact.len();
        assert(order@[i as int] < n);
        let place: usize = order[i];
        passage_ids.push(kept[place]);
        scores.push(exact[place]);
        matrices.push(TokenMatrix { place, doc_len: lengths[place] });
        i += 1;
        assert(passage_ids@ =~= Seq::new(i as nat, |k: int| kept@[order@[k] as int]));
        assert(scores@ =~= Seq::new(i as nat, |k: int| exact@[order@[k] as int]));
        assert(matrices@ =~= Seq::new(
            i as nat,
            |k: int| TokenMatrix { place: order@[k], doc_len: lengths@[order@[k] as int] },
        ));
    }
    proof {
        lemma_first_places(order@, exact@, count as int);
        let at = order@.take(count as int);
        assert forall|a: int, b: int| 0 <= a < b < scores@.len() implies (#[trigger] scores@[a]).key()
            >= (#[trigger] scores@[b]).key() by {
            assert(scores@[a] == exact@[at[a] as int] && scores@[b] == exact@[at[b] as int]);
        }
        assert forall|a: int| 0 <= a < at.len() implies (#[trigger] at[a]) < kept@.len()
            && passage_ids@[a] == kept@[at[a] as int] && scores@[a] == exact@[at[a] as int]
            && matrices@[a].place == at[a] by {}
        assert(at.no_duplicates());
    }
    SearchOutcome {
        passage_ids,
        scores,
        token_matrices: if token_scores {
            Some(matrices)
        } else {
            None
        },
    }
}

/// Results come best first, by the numbers themselves: of two results with the sign bit clear the
/// first has no smaller bits, with the sign bit set no larger ones, and none with the sign bit set
/// comes before one with it clear, but for the two zeros.
pub proof fn best_results_come_first(
    o: SearchOutcome,
    kept: Seq<i64>,
    lengths: Seq<i64>,
    exact: Seq<Score>,
    top_k: int,
    token_scores: bool,
    i: int,
    j: int,
)
    requires
        is_outcome(o, kept, lengths, exact, top_k, token_scores),
        kept.len() == exact.len() <= usize::MAX,
        0 <= top_k,
        0 <= i < j < o.scores@.len(),
        o.scores@[i].bits % 0x8000_0000 <= 0x7f80_0000,
        o.scores@[j].bits % 0x8000_0000 <= 0x7f80_0000,
    ensures
        o.scores@[i].bits < 0x8000_0000 && o.scores@[j].bits < 0x8000_0000 ==> o.scores@[i].bits
            >= o.scores@[j].bits,
        o.scores@[i].bits >= 0x8000_0000 && o.scores@[j].bits >= 0x8000_0000 ==> o.scores@[i].bits
            <= o.scores@[j].bits,
        o.scores@[i].bits >= 0x8000_0000 && o.scores@[j].bits < 0x8000_0000 ==> o.scores@[i].bits
            == 0x8000_0000 && o.scores@[j].bits == 0,
{
    lemma_ranking_exists(score_keys(exact));
    let order = ranking(score_keys(exact));
    let n = result_count(kept.len() as int, top_k);
    lemma_first_places(order, exact, n);
    assert(o.scores@[i] == exact[order.take(n)[i] as int]);
    assert(o.scores@[j] == exact[order.take(n)[j] as int]);
    keys_follow_the_numbers(o.scores@[i], o.scores@[j]);
    keys_follow_the_numbers(o.scores@[j], o.scores@[i]);
}

/// No document that is left out is better than one that is returned, and as many are returned as
/// are asked for and there are. Every result is one of the documents, with its own score.
pub proof fn no_better_document_is_left_out(
    o: SearchOutcome,
    kept: Seq<i64>,
    lengths: Seq<i64>,
    exact: Seq<Score>,
    top_k: int,
    token_scores: bool,
    p: int,
)
    requires
        is_outcome(o, kept, lengths, exact, top_k, token_scores),
        kept.len() == exact.len() <= usize::MAX,
        0 <= top_k,
        0 <= p < kept.len(),
    ensures
        o.passage_ids@.len() == o.scores@.len(),
        o.passage_ids@.len() <= top_k,
        o.passage_ids@.len() <= kept.len(),
        o.passage_ids@.len() == top_k || o.passage_ids@.len() == kept.len(),
        forall|j: int|
            0 <= j < o.passage_ids@.len() ==> exists|q: int|
                0 <= q < kept.len() && #[trigger] kept[q] == o.passage_ids@[j] && exact[q]
                    == #[trigger] o.scores@[j],
        (exists|j: int|
            0 <= j < o.passage_ids@.len() && #[trigger] o.passage_ids@[j] == kept[p]
                && o.scores@[j] == exact[p]) || forall|j: int|
            0 <= j < o.scores@.len() ==> (#[trigger] o.scores@[j]).key() >= exact[p].key(),
{
    lemma_ranking_exists(score_keys(exact));
    let order = ranking(score_keys(exact));
    let n = result_count(kept.len() as int, top_k);
    lemma_first_places(order, exact, n);
    let at = order.take(n);
    assert forall|j: int| 0 <= j < o.passage_ids@.len() implies exists|q: int|
        0 <= q < kept.len() && #[trigger] kept[q] == o.passage_ids@[j] && exact[q]
            == #[trigger] o.scores@[j] by {
        assert(kept[at[j] as int] == o.passage_ids@[j] && exact[at[j] as int] == o.scores@[j]);
    }
    if at.contains(p as usize) {
        let j = at.index_of(p as usize);
        assert(o.passage_ids@[j] == kept[p] && o.scores@[j] == exact[p]);
    } else {
        assert forall|j: int| 0 <= j < o.scores@.len() implies (#[trigger] o.scores@[j]).key()
            >= exact[p].key() by {
            assert(o.scores@[j] == exact[at[j] as int]);
            assert(exact[at[j] as int].key() >= exact[(p as usize) as int].key());
        }
    }
}

/// The token matrix at a rank is that of the passage at that rank: it stands at the place of that
/// passage in the batch, and has as many columns as that passage has tokens.
pub proof fn matrices_are_the_passages_own(
    o: SearchOutcome,
    kept: Seq<i64>,
    lengths: Seq<i64>,
    exact: Seq<Score>,
    top_k: int,
    j: int,
)
    requires
        is_outcome(o, kept, lengths, exact, top_k, true),
        kept.len() == exact.len() <= usize::MAX,
        kept.len() == lengths.len(),
        0 <= top_k,
        0 <= j < o.passage_ids@.len(),
    ensures
        o.token_matrices is Some,
        o.token_matrices->0@.len() == o.passage_ids@.len(),
        o.token_matrices->0@[j].place < kept.len(),
        kept[o.token_matrices->0@[j].place as int] == o.passage_ids@[j],
        exact[o.token_matrices->0@[j].place as int] == o.scores@[j],
        lengths[o.token_matrices->0@[j].place as int] == o.token_matrices->0@[j].doc_len,
        forall|i: int|
            0 <= i < j ==> (#[trigger] o.token_matrices->0@[i]).place
                != o.token_matrices->0@[j].place,
{
    lemma_ranking_exists(score_keys(exact));
    let order = ranking(score_keys(exact));
    let n = result_count(kept.len() as int, top_k);
    lemma_first_places(order, exact, n);
    let at = order.take(n);
    assert(o.token_matrices->0@[j].place == at[j]);
    assert forall|i: int| 0 <= i < j implies (#[trigger] o.token_matrices->0@[i]).place
        != o.token_matrices->0@[j].place by {
        assert(o.token_matrices->0@[i].place == at[i]);
    }
}

/// As many cells are chosen for every query token as are asked for: without a subset, exactly that
/// many; with one, no more than the cells of its documents, which are all offered.
pub proof fn cells_are_chosen_as_asked(
    t: CellTask,
    doc_codes: Seq<Seq<i64>>,
    n_ivf_probe: usize,
    subset: Option<Seq<i64>>,
)
    requires
        is_cell_task(t, doc_codes, n_ivf_probe, subset),
    ensures
        subset is None ==> t == (CellTask::Nearest { k: n_ivf_probe }),
        subset matches Some(s) ==> {
            &&& t !is Nearest
            &&& t is NoCells <==> forall|i: int|
                0 <= i < s.len() ==> (#[trigger] doc_codes[s[i] as int]).len() == 0
            &&& t matches CellTask::NearestAmong { cells, k } ==> {
                &&& forall|c: i64| #[trigger]
                    cells@.contains(c) <==> exists|i: int|
                        0 <= i < s.len() && (#[trigger] doc_codes[s[i] as int]).contains(c)
                &&& cells@.no_duplicates()
                &&& k <= n_ivf_probe
                &&& k <= cells@.len()
                &&& k == n_ivf_probe || k == cells@.len()
            }
        },
{
    if let Some(s) = subset {
        lemma_codes_chosen(doc_codes, s);
        sorted_lists_hold_the_values(chosen(doc_codes, s).flatten());
    }
}

/// The candidates are the passages that a probed cell lists and the subset, if there is one, names;
/// each once, in increasing order.
pub proof fn candidates_are_what_the_cells_list(
    r: Seq<i64>,
    lists: Seq<Seq<i64>>,
    cells: Seq<i64>,
    subset: Option<Seq<i64>>,
)
    requires
        is_candidates(r, lists, cells, subset),
    ensures
        r.no_duplicates(),
        forall|i: int, j: int| 0 <= i < j < r.len() ==> #[trigger] r[i] < #[trigger] r[j],
        forall|p: i64| #[trigger]
            r.contains(p) <==> (exists|i: int|
                0 <= i < cells.len() && (#[trigger] lists[cells[i] as int]).contains(p)) && (
            subset matches Some(s) ==> s.contains(p)),
{
}

/// As many candidates are kept as get exact scores, or all there are; no candidate that is dropped
/// has a better approximate score than one that is kept.
pub proof fn the_best_candidates_are_kept(pids: Seq<i64>, scores: Seq<Score>, n_full: int, p: int)
    requires
        pids.len() == scores.len() <= usize::MAX,
        0 <= n_full,
        0 <= p < pids.len(),
    ensures
        n_full >= pids.len() ==> kept_candidates(pids, scores, n_full) == pids,
        n_full < pids.len() ==> kept_candidates(pids, scores, n_full).len() == n_full,
        forall|i: int|
            0 <= i < kept_candidates(pids, scores, n_full).len() ==> exists|q: int|
                0 <= q < pids.len() && #[trigger] pids[q] == #[trigger] kept_candidates(
                    pids,
                    scores,
                    n_full,
                )[i] && (kept_candidates(pids, scores, n_full).contains(pids[p])
                    || scores[q].key() >= scores[p].key()),
{
    let kept = kept_candidates(pids, scores, n_full);
    if n_full < pids.len() {
        lemma_ranking_exists(score_keys(scores));
        let order = ranking(score_keys(scores));
        lemma_first_places(order, scores, n_full);
        let at = order.take(n_full);
        if at.contains(p as usize) {
            let j = at.index_of(p as usize);
            assert(kept[j] == pids[p]);
        }
        assert forall|i: int| 0 <= i < kept.len() implies exists|q: int|
            0 <= q < pids.len() && #[trigger] pids[q] == #[trigger] kept[i] && (kept.contains(
                pids[p],
            ) || scores[q].key() >= scores[p].key()) by {
            assert(kept[i] == pids[at[i] as int]);
            if !at.contains(p as usize) {
                assert(scores[at[i] as int].key() >= scores[(p as usize) as int].key());
            }
        }
    } else {
        assert(kept[p] == pids[p]);
        assert forall|i: int| 0 <= i < kept.len() implies exists|q: int|
            0 <= q < pids.len() && #[trigger] pids[q] == #[trigger] kept[i] && (kept.contains(
                pids[p],
            ) || scores[q].key() >= scores[p].key()) by {
            assert(pids[i] == kept[i]);
        }
    }
}

/// What is selected comes best first by the numbers themselves, no document that is left out is
/// better than one that is returned, and as many are returned as are asked for and there are.
pub proof fn the_best_documents_are_returned(
    kept: &Vec<i64>,
    lengths: &Vec<i64>,
    exact: &Vec<Score>,
    top_k: usize,
    token_scores: bool,
    o: SearchOutcome,
    i: int,
    q: int,
)
    requires
        call_ensures(select_results, (kept, lengths, exact, top_k, token_scores), o),
        kept@.len() == exact@.len(),
        kept@.len() == lengths@.len(),
        kept@.no_duplicates(),
        forall|p: int|
            0 <= p < exact@.len() ==> (#[trigger] exact@[p]).bits % 0x8000_0000 <= 0x7f80_0000,
        0 <= i < o.passage_ids@.len(),
        0 <= q < kept@.len(),
        o.passage_ids@.take(i).contains(kept@[q]) || !o.passage_ids@.contains(kept@[q]),
    ensures
        o.passage_ids@.len() == o.scores@.len(),
        o.passage_ids@.len() <= top_k,
        o.passage_ids@.len() == top_k || o.passage_ids@.len() == kept@.len(),
        kept@.contains(o.passage_ids@[i]),
        exact@[kept@.index_of(o.passage_ids@[i])] == o.scores@[i],
        o.passage_ids@.take(i).contains(kept@[q]) && exact@[q].bits < 0x8000_0000
            && o.scores@[i].bits < 0x8000_0000 ==> exact@[q].bits >= o.scores@[i].bits,
        !o.passage_ids@.contains(kept@[q]) && exact@[q].bits < 0x8000_0000 ==> o.scores@[i].bits
            < 0x8000_0000 && exact@[q].bits <= o.scores@[i].bits || exact@[q].bits == 0
            && o.scores@[i].bits == 0x8000_0000,
        !o.passage_ids@.contains(kept@[q]) && exact@[q].bits >= 0x8000_0000 ==> o.scores@[i].bits
            < 0x8000_0000 || o.scores@[i].bits <= exact@[q].bits,
{
    let at = choose|at: Seq<usize>|
        {
            &&& #[trigger] at.no_duplicates()
            &&& at.len() == o.passage_ids@.len()
            &&& forall|i: int|
                0 <= i < at.len() ==> (#[trigger] at[i]) < kept@.len() && o.passage_ids@[i]
                    == kept@[at[i] as int] && o.scores@[i] == exact@[at[i] as int]
            &&& forall|i: int, q: usize|
                0 <= i < at.len() && q < kept@.len() && !#[trigger] at.contains(q)
                    ==> exact@[#[trigger] at[i] as int].key() >= exact@[q as int].key()
        };
    let p = at[i] as int;
    assert(q < kept.len());
    assert(kept@[p] == o.passage_ids@[i] && exact@[p] == o.scores@[i]);
    assert(exact@[p].bits % 0x8000_0000 <= 0x7f80_0000);
    assert(exact@[q].bits % 0x8000_0000 <= 0x7f80_0000);
    keys_follow_the_numbers(exact@[p], exact@[q]);
    keys_follow_the_numbers(exact@[q], exact@[p]);
    if o.passage_ids@.contains(kept@[q]) {
        let before = o.passage_ids@.take(i);
        let j = before.index_of(kept@[q]);
        assert(before[j] == kept@[q]);
        assert(o.passage_ids@[j] == kept@[at[j] as int]);
        assert(at[j] == q);
        assert(o.scores@[j].key() >= o.scores@[i].key());
    } else {
        if at.contains(q as usize) {
            let j = at.index_of(q as usize);
            assert(o.passage_ids@[j] == kept@[q]);
        }
        assert(exact@[at[i] as int].key() >= exact@[(q as usize) as int].key());
    }
}

/// With token scores, the matrix at a rank is the passage's own: it stands where the passage stands
/// in the batch. Without, there are none.
pub proof fn selected_matrices_are_the_passages_own(
    kept: &Vec<i64>,
    lengths: &Vec<i64>,
    exact: &Vec<Score>,
    top_k: usize,
    o: SearchOutcome,
    plain: SearchOutcome,
    j: int,
)
    requires
        call_ensures(select_results, (kept, lengths, exact, top_k, true), o),
        call_ensures(select_results, (kept, lengths, exact, top_k, false), plain),
        0 <= j < o.passage_ids@.len(),
    ensures
        plain.token_matrices is None,
        o.token_matrices is Some,
        o.token_matrices->0@.len() == o.passage_ids@.len(),
        o.token_matrices->0@[j].place < kept@.len(),
        kept@[o.token_matrices->0@[j].place as int] == o.passage_ids@[j],
        exact@[o.token_matrices->0@[j].place as int] == o.scores@[j],
        lengths@[o.token_matrices->0@[j].place as int] == o.token_matrices->0@[j].doc_len,
{
    let m = o.token_matrices->0;
    assert(m@[j].place < kept@.len());
}

/// A passage is found when a probed cell lists it and the subset, if there is one, names it; it is
/// found once.
pub proof fn listed_passages_are_found(
    ivf: &StridedTensor<i64>,
    cells: &Vec<i64>,
    subset: &Option<Vec<i64>>,
    r: Vec<i64>,
    p: i64,
)
    requires
        call_ensures(gather_candidates, (ivf, cells, subset), r),
    ensures
        r@.no_duplicates(),
        r@.contains(p) <==> (exists|i: int|
            0 <= i < cells@.len() && (#[trigger] ivf@[cells@[i] as int]).contains(p)) && (
        subset is Some ==> subset->0@.contains(p)),
{
}

/// As many candidates are kept as are asked for, or all there are, and none that is dropped is
/// better than one that is kept.
pub proof fn better_candidates_are_kept(
    pids: &Vec<i64>,
    scores: &Vec<Score>,
    n_full: usize,
    r: Vec<i64>,
    i: int,
    p: int,
)
    requires
        call_ensures(prune_candidates, (pids, scores, n_full), r),
        pids@.len() == scores@.len(),
        pids@.no_duplicates(),
        forall|x: int|
            0 <= x < scores@.len() ==> (#[trigger] scores@[x]).bits % 0x8000_0000 <= 0x7f80_0000,
        0 <= i < pids@.len(),
        0 <= p < pids@.len(),
        r@.contains(pids@[i]),
        !r@.contains(pids@[p]),
    ensures
        r@.len() == n_full,
        scores@[p].bits < 0x8000_0000 ==> scores@[i].bits < 0x8000_0000 && scores@[p].bits
            <= scores@[i].bits || scores@[p].bits == 0 && scores@[i].bits == 0x8000_0000,
        scores@[p].bits >= 0x8000_0000 ==> scores@[i].bits < 0x8000_0000 || scores@[i].bits
            <= scores@[p].bits,
{
    if n_full >= pids@.len() {
        assert(r@[p] == pids@[p]);
    }
    let at = choose|at: Seq<usize>|
        {
            &&& #[trigger] at.no_duplicates()
            &&& at.len() == n_full
            &&& forall|i: int|
                0 <= i < at.len() ==> (#[trigger] at[i]) < pids@.len() && r@[i]
                    == pids@[at[i] as int]
            &&& forall|i: int, q: usize|
                0 <= i < at.len() && q < pids@.len() && !#[trigger] at.contains(q)
                    ==> scores@[#[trigger] at[i] as int].key() >= scores@[q as int].key()
        };
    assert(p < pids.len());
    if at.contains(p as usize) {
        let j = at.index_of(p as usize);
        assert(r@[j] == pids@[p]);
    }
    let j = r@.index_of(pids@[i]);
    assert(at[j] == i);
    assert(scores@[at[j] as int].key() >= scores@[(p as usize) as int].key());
    assert(scores@[i].bits % 0x8000_0000 <= 0x7f80_0000);
    assert(scores@[p].bits % 0x8000_0000 <= 0x7f80_0000);
    keys_follow_the_numbers(scores@[i], scores@[p]);
    keys_follow_the_numbers(scores@[p], scores@[i]);
}

} // verus!
