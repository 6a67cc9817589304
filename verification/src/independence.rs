//! What a search finds does not depend on how it is asked for: a document is scored by itself, a
//! subset is a set, and fewer results are the first of more.

use vstd::prelude::*;

use crate::order::{lemma_ranking_exists, ranking, same_members, sorting_forgets_order};
use crate::packing::{keys_per_byte, lemma_fill, unpacked_buckets, unpacking_goes_byte_by_byte};
use crate::pipeline::{buckets_of, chosen_rows, codes_of, lemma_chosen_len, lengths_of};
use crate::score::Score;
use crate::search::{
    admits, is_candidates, is_cell_task, is_outcome, lemma_flatten_contains, result_count,
    score_keys, CellTask, LoadedIndex, SearchOutcome,
};
use crate::strided::{chosen, ids_in};

verus! {

/// Of the codes that are handed out to score documents exactly, those of the document at place `i`.
pub open spec fn codes_at(index: LoadedIndex, kept: Seq<i64>, i: int) -> Seq<i64> {
    let counts = index.doc_codes_strided.row_counts();
    codes_of(index, kept).subrange(
        chosen_rows(counts, kept, i as nat),
        chosen_rows(counts, kept, (i + 1) as nat),
    )
}

/// Of the bucket numbers that are handed out to score documents exactly, those of the document at
/// place `i`.
pub open spec fn buckets_at(index: LoadedIndex, dim: int, kept: Seq<i64>, i: int) -> Seq<i64> {
    let counts = index.doc_codes_strided.row_counts();
    buckets_of(index, kept).subrange(
        chosen_rows(counts, kept, i as nat) * dim,
        chosen_rows(counts, kept, (i + 1) as nat) * dim,
    )
}

/// In lists that stand back to back, a list stands behind those before it.
proof fn lemma_flatten_part<T>(lists: Seq<Seq<T>>, i: int)
    requires
        0 <= i < lists.len(),
    ensures
        ({
            let from = lists.take(i).flatten().len() as int;
            let to = lists.take(i + 1).flatten().len() as int;
            &&& 0 <= from <= to <= lists.flatten().len()
            &&& lists.flatten().subrange(from, to) == lists[i]
        }),
{
    let head = lists.take(i);
    let tail = lists.skip(i + 1);
    assert(lists.take(i + 1) =~= head.push(lists[i]));
    assert(lists =~= head.push(lists[i]) + tail);
    head.lemma_flatten_push(lists[i]);
    vstd::seq_lib::lemma_flatten_concat(head.push(lists[i]), tail);
    let from = head.flatten().len() as int;
    assert(lists.flatten().subrange(from, from + lists[i].len()) =~= lists[i]);
}

/// A document is scored by itself: what is handed out to score the document at place `i` exactly
/// are its own codes and the bucket numbers of its own residuals, whichever other documents are
/// scored with it.
pub proof fn documents_are_scored_by_themselves(
    index: LoadedIndex,
    dim: int,
    kept: Seq<i64>,
    i: int,
)
    requires
        index.wf(),
        index.codec.has_bucket_weights,
        index.stores_dimension(dim),
        ids_in(kept, index.doc_codes_strided@.len()),
        0 <= dim,
        0 <= i < kept.len(),
    ensures
        lengths_of(index, kept)[i] == index.doc_codes_strided.row_counts()[kept[i] as int],
        codes_at(index, kept, i) == index.doc_codes_strided@[kept[i] as int],
        buckets_at(index, dim, kept, i) == unpacked_buckets(
            index.doc_residuals_strided@[kept[i] as int],
            index.codec.nbits as nat,
        ),
{
    let counts = index.doc_codes_strided.row_counts();
    let a = chosen_rows(counts, kept, i as nat);
    let b = chosen_rows(counts, kept, (i + 1) as nat);
    index.doc_codes_strided.lemma_parts();
    index.doc_residuals_strided.lemma_parts();

    let codes = chosen(index.doc_codes_strided@, kept);
    lemma_chosen_len(index.doc_codes_strided, kept, i as nat);
    lemma_chosen_len(index.doc_codes_strided, kept, (i + 1) as nat);
    lemma_flatten_part(codes, i);
    assert(codes_at(index, kept, i) == codes[i]);

    let bytes = chosen(index.doc_residuals_strided@, kept);
    lemma_chosen_len(index.doc_residuals_strided, kept, i as nat);
    lemma_chosen_len(index.doc_residuals_strided, kept, (i + 1) as nat);
    lemma_flatten_part(bytes, i);
    let n = index.codec.nbits as nat;
    let k = keys_per_byte(n) as int;
    let w = index.doc_residuals_strided.row_width() as int;
    lemma_fill(n);
    assert(w * k == dim) by (nonlinear_arith)
        requires
            k * n == 8,
            dim * n == 8 * w,
            n > 0,
    ;
    unpacking_goes_byte_by_byte(bytes.flatten(), n, a * w, b * w);
    assert(a * w * k == a * dim && b * w * k == b * dim) by (nonlinear_arith)
        requires
            w * k == dim,
    ;
    assert(buckets_at(index, dim, kept, i) == unpacked_buckets(bytes[i], n));
}

/// The exact scores are those that `f` gives to the codes and bucket numbers handed out for each
/// document.
pub open spec fn are_scores_by(
    f: spec_fn(Seq<i64>, Seq<i64>) -> Score,
    index: LoadedIndex,
    dim: int,
    kept: Seq<i64>,
    exact: Seq<Score>,
) -> bool {
    &&& exact.len() == kept.len() <= usize::MAX
    &&& forall|i: int|
        0 <= i < exact.len() ==> #[trigger] exact[i] == f(
            codes_at(index, kept, i),
            buckets_at(index, dim, kept, i),
        )
}

/// A passage that is found has the score of a document that was scored exactly.
proof fn lemma_found_score(
    f: spec_fn(Seq<i64>, Seq<i64>) -> Score,
    index: LoadedIndex,
    dim: int,
    kept: Seq<i64>,
    lengths: Seq<i64>,
    exact: Seq<Score>,
    top_k: int,
    token_scores: bool,
    o: SearchOutcome,
    at: int,
)
    requires
        index.wf(),
        index.codec.has_bucket_weights,
        index.stores_dimension(dim),
        0 <= dim,
        0 <= top_k,
        ids_in(kept, index.doc_codes_strided@.len()),
        are_scores_by(f, index, dim, kept, exact),
        is_outcome(o, kept, lengths, exact, top_k, token_scores),
        0 <= at < o.passage_ids@.len(),
    ensures
        o.scores@[at] == f(
            index.doc_codes_strided@[o.passage_ids@[at] as int],
            unpacked_buckets(
                index.doc_residuals_strided@[o.passage_ids@[at] as int],
                index.codec.nbits as nat,
            ),
        ),
{
    lemma_ranking_exists(score_keys(exact));
    let i = ranking(score_keys(exact))[at] as int;
    assert(i < kept.len());
    documents_are_scored_by_themselves(index, dim, kept, i);
    assert(exact[i] == f(codes_at(index, kept, i), buckets_at(index, dim, kept, i)));
}

/// A passage has the same score in every search for a query that finds it. The searches may differ
/// in their parameters, subsets and candidates, and in whether they want token scores; the query
/// makes a score, by `f`, of what is handed out for a document.
pub proof fn passages_keep_their_scores(
    f: spec_fn(Seq<i64>, Seq<i64>) -> Score,
    index: LoadedIndex,
    dim: int,
    kept: Seq<i64>,
    lengths: Seq<i64>,
    exact: Seq<Score>,
    top_k: int,
    token_scores: bool,
    o: SearchOutcome,
    at: int,
    other_kept: Seq<i64>,
    other_lengths: Seq<i64>,
    other_exact: Seq<Score>,
    other_top_k: int,
    other_token_scores: bool,
    other: SearchOutcome,
    other_at: int,
)
    requires
        index.wf(),
        index.codec.has_bucket_weights,
        index.stores_dimension(dim),
        0 <= dim,
        0 <= top_k,
        ids_in(kept, index.doc_codes_strided@.len()),
        are_scores_by(f, index, dim, kept, exact),
        is_outcome(o, kept, lengths, exact, top_k, token_scores),
        0 <= at < o.passage_ids@.len(),
        0 <= other_top_k,
        ids_in(other_kept, index.doc_codes_strided@.len()),
        are_scores_by(f, index, dim, other_kept, other_exact),
        is_outcome(
            other,
            other_kept,
            other_lengths,
            other_exact,
            other_top_k,
            other_token_scores,
        ),
        0 <= other_at < other.passage_ids@.len(),
        o.passage_ids@[at] == other.passage_ids@[other_at],
    ensures
        o.scores@[at] == other.scores@[other_at],
{
    lemma_found_score(f, index, dim, kept, lengths, exact, top_k, token_scores, o, at);
    lemma_found_score(
        f,
        index,
        dim,
        other_kept,
        other_lengths,
        other_exact,
        other_top_k,
        other_token_scores,
        other,
        other_at,
    );
}

proof fn lemma_chosen_members(lists: Seq<Seq<i64>>, a: Seq<i64>, b: Seq<i64>, x: i64)
    requires
        same_members(a, b),
        chosen(lists, a).flatten().contains(x),
    ensures
        chosen(lists, b).flatten().contains(x),
{
    let from = chosen(lists, a);
    let to = chosen(lists, b);
    lemma_flatten_contains(from, a.len(), x);
    lemma_flatten_contains(to, b.len(), x);
    assert(from.take(a.len() as int) =~= from);
    assert(to.take(b.len() as int) =~= to);
    let i = choose|i: int| 0 <= i < a.len() && #[trigger] from[i].contains(x);
    assert(a.contains(a[i]));
    let j = b.index_of(a[i]);
    assert(b.contains(a[i]));
    assert(to[j].contains(x));
}

/// A subset is a set: in whatever order it names documents, and however often, the same cells are
/// chosen from and the same candidates found.
pub proof fn subset_order_is_irrelevant(
    doc_codes: Seq<Seq<i64>>,
    n_ivf_probe: usize,
    task: CellTask,
    candidates: Seq<i64>,
    lists: Seq<Seq<i64>>,
    cells: Seq<i64>,
    a: Seq<i64>,
    b: Seq<i64>,
)
    requires
        same_members(a, b),
    ensures
        is_cell_task(task, doc_codes, n_ivf_probe, Some(a)) <==> is_cell_task(
            task,
            doc_codes,
            n_ivf_probe,
            Some(b),
        ),
        is_candidates(candidates, lists, cells, Some(a)) <==> is_candidates(
            candidates,
            lists,
            cells,
            Some(b),
        ),
{
    let x = chosen(doc_codes, a).flatten();
    let y = chosen(doc_codes, b).flatten();
    assert forall|c: i64| #[trigger] x.contains(c) <==> y.contains(c) by {
        if x.contains(c) {
            lemma_chosen_members(doc_codes, a, b, c);
        }
        if y.contains(c) {
            lemma_chosen_members(doc_codes, b, a, c);
        }
    }
    sorting_forgets_order(x, y);
    if x.len() > 0 {
        assert(x.contains(x[0]));
        assert(y.contains(x[0]));
    }
    if y.len() > 0 {
        assert(y.contains(y[0]));
        assert(x.contains(y[0]));
    }
    assert(is_cell_task(task, doc_codes, n_ivf_probe, Some(a)) <==> is_cell_task(
        task,
        doc_codes,
        n_ivf_probe,
        Some(b),
    ));
    assert forall|p: i64| admits(Some(a), p) <==> admits(Some(b), p) by {
        assert(a.contains(p) <==> b.contains(p));
    }
}

/// Fewer results are the first of more: with a smaller `top_k` a search finds the beginning of what
/// it finds with a larger one.
pub proof fn fewer_results_come_first(
    few: SearchOutcome,
    many: SearchOutcome,
    kept: Seq<i64>,
    lengths: Seq<i64>,
    exact: Seq<Score>,
    top_k: int,
    larger: int,
    token_scores: bool,
)
    requires
        0 <= top_k <= larger,
        is_outcome(few, kept, lengths, exact, top_k, token_scores),
        is_outcome(many, kept, lengths, exact, larger, token_scores),
    ensures
        few.passage_ids@.len() == result_count(many.passage_ids@.len() as int, top_k),
        few.passage_ids@ == many.passage_ids@.take(few.passage_ids@.len() as int),
        few.scores@ == many.scores@.take(few.passage_ids@.len() as int),
        token_scores ==> few.token_matrices->0@ == many.token_matrices->0@.take(
            few.passage_ids@.len() as int,
        ),
{
}

} // verus!
