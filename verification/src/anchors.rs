//! Training anchors: sampled tokens that are moved, again and again, to the mean of the tokens
//! nearest to them.

use rand::Rng;
use rand::SeedableRng;
use vstd::prelude::*;

use crate::centroids::{
    mode_of, query_repeats, repeat_block, repeated, repeats_for, search_algo,
    setting, SearchAlgoMode,
};
use crate::chunks::{ceil_div, is_batching, row_batches};
use crate::order::increasing;
use crate::sampling::{all_rows, lemma_all_rows_len, rows_at, slice_rows, RowSlice};
use crate::score::Score;
use crate::strided::{are_lengths, lemma_rows_monotonic, rows_before, total_rows};
use crate::text::{ascii_lower, spells, trim, trimmed_lowercase_chars};

verus! {

/// A seeded random generator of `rand`.
#[verifier::external_type_specification]
#[verifier::external_body]
pub struct ExStdRng(rand::rngs::StdRng);

/// The generator that `rand`, at the version in use, makes from `seed`.
pub uninterp spec fn generator_of(seed: u64) -> rand::rngs::StdRng;

/// Calls `rand::rngs::StdRng::seed_from_u64`. The generator is a function of the seed.
#[verifier::external_body]
fn seeded_generator(seed: u64) -> (r: rand::rngs::StdRng)
    ensures
        r == generator_of(seed),
{
    rand::rngs::StdRng::seed_from_u64(seed)
}

/// Calls `rand::rngs::StdRng::from_rng` on the generator of the thread. Nothing is said of the
/// generator, which is left to chance.
#[verifier::external_body]
fn fresh_generator() -> (r: rand::rngs::StdRng) {
    rand::rngs::StdRng::from_rng(&mut rand::rng())
}

/// The number that `rand`, at the version in use, draws below `bound` with the generator.
pub uninterp spec fn drawn(rng: rand::rngs::StdRng, bound: i64) -> i64;

/// What becomes of the generator when a number is drawn below `bound` with it.
pub uninterp spec fn after_draw(rng: rand::rngs::StdRng, bound: i64) -> rand::rngs::StdRng;

/// Calls `rand::Rng::random_range` for the numbers from zero up to, not including, `bound`. The
/// number that comes out is one of them, and it and the generator afterwards are functions of the
/// generator before and of the bound.
#[verifier::external_body]
fn draw_below(rng: &mut rand::rngs::StdRng, bound: i64) -> (r: i64)
    requires
        0 < bound,
    ensures
        0 <= r < bound,
        r == drawn(*old(rng), bound),
        *final(rng) == after_draw(*old(rng), bound),
{
    rng.random_range(0..bound)
}

/// Why anchors are not trained.
#[derive(Clone, Copy, Debug, PartialEq, Eq, Structural)]
pub enum AnchorError {
    /// The graph backend is not part of this build.
    GraphUnavailable,
    /// The tokens of this document are no matrix.
    NotMatrix(usize),
    /// The policy for anchors without tokens is unknown.
    UnknownEmptyHandling,
    /// There are no documents.
    NoDocuments,
    /// There are no tokens.
    NoTokens,
    /// The search gave an anchor that does not exist.
    NeighborOutOfRange { row: usize, id: u32 },
    /// No anchor has a token.
    AllEmpty,
}

/// What becomes of anchors that no token is nearest to.
#[derive(Clone, Copy, Debug, PartialEq, Eq, Structural)]
pub enum EmptyHandling {
    /// They stay as they are.
    Sticky,
    /// They are replaced by tokens drawn at random.
    Reseed,
    /// They are dropped.
    Prune,
}

/// The policy that a text names, whatever the case of its letters and the space around it.
pub open spec fn policy_of(text: Seq<char>) -> Result<EmptyHandling, AnchorError> {
    let name = ascii_lower(trim(text));
    if name == "sticky"@ {
        Ok(EmptyHandling::Sticky)
    } else if name == "reseed"@ {
        Ok(EmptyHandling::Reseed)
    } else if name == "prune"@ {
        Ok(EmptyHandling::Prune)
    } else {
        Err(AnchorError::UnknownEmptyHandling)
    }
}

proof fn lemma_policies_differ()
    ensures
        "sticky"@ != "reseed"@,
        "sticky"@ != "prune"@,
        "reseed"@ != "prune"@,
{
    reveal_strlit("sticky");
    reveal_strlit("reseed");
    reveal_strlit("prune");
    assert("sticky"@[0] == 's' && "reseed"@[0] == 'r' && "prune"@[0] == 'p');
}

/// Reads a policy.
pub fn parse_empty_handling(text: &str) -> (r: Result<EmptyHandling, AnchorError>)
    ensures
        r == policy_of(text@),
        ({
            let name = ascii_lower(trim(text@));
            &&& name == "sticky"@ ==> r == Ok::<EmptyHandling, AnchorError>(EmptyHandling::Sticky)
            &&& name == "reseed"@ ==> r == Ok::<EmptyHandling, AnchorError>(EmptyHandling::Reseed)
            &&& name == "prune"@ ==> r == Ok::<EmptyHandling, AnchorError>(EmptyHandling::Prune)
            &&& name != "sticky"@ && name != "reseed"@ && name != "prune"@ ==> r == Err::<
                EmptyHandling,
                AnchorError,
            >(AnchorError::UnknownEmptyHandling)
        }),
{
    proof {
        lemma_policies_differ();
    }
    let name = trimmed_lowercase_chars(text);
    if spells(&name, "sticky") {
        Ok(EmptyHandling::Sticky)
    } else if spells(&name, "reseed") {
        Ok(EmptyHandling::Reseed)
    } else if spells(&name, "prune") {
        Ok(EmptyHandling::Prune)
    } else {
        Err(AnchorError::UnknownEmptyHandling)
    }
}

/// The number of tokens of every document.
pub open spec fn token_counts(shapes: Seq<Vec<i64>>) -> Seq<i64> {
    Seq::new(shapes.len(), |i: int| shapes[i]@[0])
}

/// The documents before `n` are matrices.
pub open spec fn are_matrices(shapes: Seq<Vec<i64>>, n: int) -> bool {
    forall|i: int| 0 <= i < n ==> (#[trigger] shapes[i])@.len() == 2
}

/// The shapes can be those of tensors whose matrices have no more than `i64::MAX` rows together.
pub open spec fn are_shapes(shapes: Seq<Vec<i64>>) -> bool {
    &&& forall|i: int, j: int|
        0 <= i < shapes.len() && 0 <= j < shapes[i]@.len() ==> 0 <= #[trigger] shapes[i]@[j]
    &&& forall|n: int|
        0 <= n <= shapes.len() && are_matrices(shapes, n) ==> #[trigger] rows_before(
            token_counts(shapes),
            n as nat,
        ) <= i64::MAX
}

/// The number of all tokens. An error gives the first document that is no matrix.
pub fn total_tokens(shapes: &Vec<Vec<i64>>) -> (r: Result<i64, AnchorError>)
    requires
        are_shapes(shapes@),
    ensures
        match r {
            Ok(n) => {
                &&& are_matrices(shapes@, shapes@.len() as int)
                &&& n == total_rows(token_counts(shapes@))
                &&& 0 <= n
                &&& forall|i: int| 0 <= i < shapes@.len() ==> (#[trigger] shapes@[i])@.len() == 2
            },
            Err(e) => e matches AnchorError::NotMatrix(i) && i < shapes@.len() && are_matrices(
                shapes@,
                i as int,
            ) && shapes@[i as int]@.len() != 2,
        },
{
    let mut sum: i64 = 0;
    let mut i: usize = 0;
    while i < shapes.len()
        invariant
            i <= shapes@.len(),
            are_shapes(shapes@),
            are_matrices(shapes@, i as int),
            sum == rows_before(token_counts(shapes@), i as nat),
            0 <= sum,
        decreases shapes@.len() - i,
    {
        if shapes[i].len() != 2 {
            return Err(AnchorError::NotMatrix(i));
        }
        assert(0 <= shapes@[i as int]@[0]);
        assert(are_matrices(shapes@, i + 1));
        assert(rows_before(token_counts(shapes@), (i + 1) as nat) <= i64::MAX);
        assert(token_counts(shapes@)[i as int] == shapes@[i as int]@[0]);
        sum = sum + shapes[i][0];
        i += 1;
    }
    Ok(sum)
}

/// The usual number of anchors: one for every forty tokens, and one at least.
pub open spec fn usual_anchors(tokens: int) -> int {
    if tokens / 40 > 1 {
        tokens / 40
    } else {
        1
    }
}

/// The usual number of anchors.
pub fn default_n_anchors(tokens: i64) -> (r: usize)
    requires
        0 <= tokens,
        tokens / 40 <= usize::MAX,
    ensures
        r == usual_anchors(tokens as int),
        r >= 1,
        40 * r <= tokens < 40 * (r + 1) || r == 1 && tokens < 40,
{
    if tokens / 40 > 1 {
        (tokens / 40) as usize
    } else {
        1
    }
}

/// From what tokens are drawn: the number of tokens of every document, how many there are up to
/// and including each, all together, and their dimension.
pub struct SamplingPlan {
    pub lens: Vec<i64>,
    pub cum: Vec<i64>,
    pub running: i64,
    pub dim: i64,
}

impl SamplingPlan {
    /// The sums are those of the lengths, and there are tokens.
    pub open spec fn wf(&self) -> bool {
        &&& are_lengths(self.lens@)
        &&& self.cum@.len() == self.lens@.len()
        &&& forall|i: int|
            0 <= i < self.cum@.len() ==> #[trigger] self.cum@[i] == rows_before(
                self.lens@,
                (i + 1) as nat,
            )
        &&& self.running == total_rows(self.lens@)
        &&& 0 < self.running
    }
}

/// Document `d` holds token `t`, all tokens being numbered through.
pub open spec fn holds_token(lens: Seq<i64>, d: int, t: int) -> bool {
    0 <= d < lens.len() && rows_before(lens, d as nat) <= t < rows_before(lens, (d + 1) as nat)
}

/// The document that holds token `t`.
pub open spec fn holder(lens: Seq<i64>, t: int) -> int {
    choose|d: int| holds_token(lens, d, t)
}

/// Settles from what tokens are drawn.
pub fn token_sampling_plan(shapes: &Vec<Vec<i64>>) -> (r: Result<SamplingPlan, AnchorError>)
    requires
        are_shapes(shapes@),
        are_matrices(shapes@, shapes@.len() as int),
    ensures
        if shapes@.len() == 0 {
            r matches Err(e) && e == AnchorError::NoDocuments
        } else if total_rows(token_counts(shapes@)) == 0 {
            r matches Err(e) && e == AnchorError::NoTokens
        } else {
            r matches Ok(p) && p.wf() && p.lens@ == token_counts(shapes@) && p.dim == shapes@[0]@[1]
        },
{
    if shapes.len() == 0 {
        return Err(AnchorError::NoDocuments);
    }
    assert(shapes@[0]@.len() == 2);
    let dim: i64 = shapes[0][1];
    let mut lens: Vec<i64> = Vec::new();
    let mut cum: Vec<i64> = Vec::new();
    let mut running: i64 = 0;
    let mut i: usize = 0;
    let ghost counts = token_counts(shapes@);
    while i < shapes.len()
        invariant
            i <= shapes@.len(),
            are_shapes(shapes@),
            are_matrices(shapes@, shapes@.len() as int),
            counts == token_counts(shapes@),
            lens@ == counts.take(i as int),
            cum@.len() == i,
            running == rows_before(counts, i as nat),
            0 <= running,
            forall|j: int| 0 <= j < i ==> #[trigger] cum@[j] == rows_before(counts, (j + 1) as nat),
            forall|j: int| 0 <= j < i ==> 0 <= #[trigger] counts[j],
        decreases shapes@.len() - i,
    {
        assert(shapes@[i as int]@.len() == 2);
        assert(0 <= shapes@[i as int]@[0]);
        assert(are_matrices(shapes@, i + 1));
        assert(rows_before(counts, (i + 1) as nat) <= i64::MAX);
        assert(counts[i as int] == shapes@[i as int]@[0]);
        let len: i64 = shapes[i][0];
        lens.push(len);
        running = running + len;
        cum.push(running);
        i += 1;
        assert(lens@ =~= counts.take(i as int));
    }
    assert(lens@ =~= counts);
    if running <= 0 {
        return Err(AnchorError::NoTokens);
    }
    Ok(SamplingPlan { lens, cum, running, dim })
}

/// Every document holds as many tokens as it has, and every token is held by one document. So a
/// token number drawn evenly from all of them picks each document by its number of tokens.
pub proof fn tokens_are_shared_out(lens: Seq<i64>, d: int, t: int)
    requires
        are_lengths(lens),
        0 <= d < lens.len(),
        0 <= t < total_rows(lens),
    ensures
        holds_token(lens, d, t) <==> d == holder(lens, t),
        holds_token(lens, d, t) <==> rows_before(lens, d as nat) <= t < rows_before(lens, d as nat)
            + lens[d],
{
    lemma_some_document_holds(lens, lens.len(), t);
    let e = holder(lens, t);
    assert(holds_token(lens, e, t));
    if d < e {
        lemma_rows_monotonic(lens, (d + 1) as nat, e as nat);
    }
    if e < d {
        lemma_rows_monotonic(lens, (e + 1) as nat, d as nat);
    }
}

proof fn lemma_some_document_holds(lens: Seq<i64>, n: nat, t: int)
    requires
        are_lengths(lens),
        n <= lens.len(),
        0 <= t < rows_before(lens, n),
    ensures
        exists|d: int| holds_token(lens, d, t),
    decreases n,
{
    assert(n > 0);
    if rows_before(lens, (n - 1) as nat) <= t {
        assert(holds_token(lens, n - 1, t));
    } else {
        lemma_some_document_holds(lens, (n - 1) as nat, t);
    }
}

/// The document that holds token `t`.
pub fn document_of(plan: &SamplingPlan, t: i64) -> (r: usize)
    requires
        plan.wf(),
        0 <= t < plan.running,
    ensures
        holds_token(plan.lens@, r as int, t as int),
        r == holder(plan.lens@, t as int),
        0 < plan.lens@[r as int],
{
    let mut low: usize = 0;
    let mut high: usize = plan.cum.len();
    let n: usize = plan.cum.len();
    while low < high
        invariant
            low <= high <= n,
            n == plan.cum@.len(),
            plan.wf(),
            0 <= t < plan.running,
            forall|i: int| 0 <= i < low ==> #[trigger] plan.cum@[i] <= t,
            forall|i: int| high <= i < n ==> #[trigger] plan.cum@[i] > t,
        decreases high - low,
    {
        let mid: usize = low + (high - low) / 2;
        if plan.cum[mid] <= t {
            assert forall|i: int| 0 <= i < mid + 1 implies #[trigger] plan.cum@[i] <= t by {
                lemma_rows_monotonic(plan.lens@, (i + 1) as nat, (mid + 1) as nat);
            }
            low = mid + 1;
        } else {
            assert forall|i: int| mid <= i < n implies #[trigger] plan.cum@[i] > t by {
                lemma_rows_monotonic(plan.lens@, (mid + 1) as nat, (i + 1) as nat);
            }
            high = mid;
        }
    }
    proof {
        assert(rows_before(plan.lens@, 0) == 0);
        assert(n > 0);
        if low == n {
            assert(plan.cum@[n - 1] <= t);
        }
        if low > 0 {
            assert(plan.cum@[low - 1] <= t);
        }
        assert(plan.cum@[low as int] > t);
        tokens_are_shared_out(plan.lens@, low as int, t as int);
    }
    low
}

/// A row of a document.
#[derive(Clone, Copy, Debug, PartialEq, Eq, Structural)]
pub struct TokenRow {
    pub doc: usize,
    pub row: i64,
}

/// The next row that is drawn with a generator, and the generator afterwards: a token is drawn from
/// all tokens, and a row from those of the document that holds it.
pub open spec fn drawn_row(lens: Seq<i64>, rng: rand::rngs::StdRng) -> (
    TokenRow,
    rand::rngs::StdRng,
) {
    let all = total_rows(lens) as i64;
    let d = holder(lens, drawn(rng, all) as int);
    let next = after_draw(rng, all);
    (TokenRow { doc: d as usize, row: drawn(next, lens[d]) }, after_draw(next, lens[d]))
}

/// The `n` rows that are drawn with a generator one after another, and the generator afterwards.
pub open spec fn drawn_rows(lens: Seq<i64>, rng: rand::rngs::StdRng, n: nat) -> (
    Seq<TokenRow>,
    rand::rngs::StdRng,
)
    decreases n,
{
    if n == 0 {
        (Seq::empty(), rng)
    } else {
        let (rows, before) = drawn_rows(lens, rng, (n - 1) as nat);
        let (row, after) = drawn_row(lens, before);
        (rows.push(row), after)
    }
}

/// The `n` rows are those drawn with the seeded generator, and that generator is left as `after`;
/// without a seed, those drawn with some generator.
pub open spec fn starts_with(
    lens: Seq<i64>,
    seed: Option<u64>,
    n: nat,
    rows: Seq<TokenRow>,
    after: rand::rngs::StdRng,
) -> bool {
    match seed {
        Some(s) => (rows, after) == drawn_rows(lens, generator_of(s), n),
        None => exists|g: rand::rngs::StdRng|
            (rows, after) == #[trigger] drawn_rows(lens, g, n),
    }
}

/// A seed fixes the rows that training starts with, and all that are drawn later.
pub proof fn a_seed_fixes_the_rows(
    lens: Seq<i64>,
    seed: u64,
    n: nat,
    rows: Seq<TokenRow>,
    after: rand::rngs::StdRng,
    others: Seq<TokenRow>,
    other: rand::rngs::StdRng,
)
    requires
        starts_with(lens, Some(seed), n, rows, after),
        starts_with(lens, Some(seed), n, others, other),
    ensures
        rows == others,
        after == other,
{
}

/// Draws rows evenly from all tokens: a document by its number of tokens, and a token of it.
fn sample_token_rows(plan: &SamplingPlan, n_rows: usize, rng: &mut rand::rngs::StdRng) -> (r:
    Vec<TokenRow>)
    requires
        plan.wf(),
    ensures
        (r@, *final(rng)) == drawn_rows(plan.lens@, *old(rng), n_rows as nat),
        are_token_rows(r@, plan.lens@, n_rows as int),
{
    let mut rows: Vec<TokenRow> = Vec::new();
    while rows.len() < n_rows
        invariant
            rows@.len() <= n_rows,
            plan.wf(),
            (rows@, *rng) == drawn_rows(plan.lens@, *old(rng), rows@.len()),
            are_token_rows(rows@, plan.lens@, rows@.len() as int),
        decreases n_rows - rows@.len(),
    {
        let t: i64 = draw_below(rng, plan.running);
        let doc: usize = document_of(plan, t);
        let row: i64 = draw_below(rng, plan.lens[doc]);
        rows.push(TokenRow { doc, row });
    }
    rows
}

/// The generator that rows are drawn with. A seed fixes it; without one it is left to chance.
fn row_generator(seed: Option<u64>) -> (r: rand::rngs::StdRng)
    ensures
        seed matches Some(s) ==> r == generator_of(s),
{
    match seed {
        Some(s) => seeded_generator(s),
        None => fresh_generator(),
    }
}

/// The number of rows that are searched for at once. A setting that is no positive `i64` stands for
/// one row.
pub open spec fn rows_at_once(token_batch_size: usize) -> int {
    if 1 <= token_batch_size <= i64::MAX {
        token_batch_size as int
    } else {
        1
    }
}

/// A document of `len` rows, cut into pieces of `size` rows, the last one as long as what is left.
pub open spec fn doc_pieces(d: int, len: int, size: int) -> Seq<RowSlice> {
    Seq::new(
        ceil_div(len, size) as nat,
        |k: int|
            RowSlice {
                place: d as usize,
                start: (k * size) as i64,
                rows: (if size < len - k * size {
                    size
                } else {
                    len - k * size
                }) as i64,
            },
    )
}

/// The pieces of the first `n` documents, in order.
pub open spec fn token_pieces(lens: Seq<i64>, size: int, n: nat) -> Seq<RowSlice>
    decreases n,
{
    if n == 0 {
        Seq::empty()
    } else {
        token_pieces(lens, size, (n - 1) as nat) + doc_pieces(n - 1, lens[n - 1] as int, size)
    }
}

/// The number of rows of every piece.
pub open spec fn piece_rows(pieces: Seq<RowSlice>) -> Seq<i64> {
    Seq::new(pieces.len(), |i: int| pieces[i].rows)
}

/// There is a piece `k` if rows are left behind the first `k` pieces.
proof fn lemma_piece(len: int, size: int, k: int)
    requires
        0 <= len,
        0 < size,
        0 <= k,
    ensures
        0 <= ceil_div(len, size),
        k < ceil_div(len, size) <==> k * size < len,
        k < ceil_div(len, size) ==> 0 <= k * size && (k + 1) * size == k * size + size,
        k == ceil_div(len, size) ==> len <= k * size,
{
    vstd::arithmetic::div_mod::lemma_fundamental_div_mod(len, size);
    let q = len / size;
    let m = len % size;
    assert(0 <= q) by (nonlinear_arith)
        requires
            len == size * q + m,
            0 <= m < size,
            0 <= len,
    ;
    if k < ceil_div(len, size) {
        assert(k * size < len && 0 <= k * size && (k + 1) * size == k * size + size)
            by (nonlinear_arith)
            requires
                len == size * q + m,
                0 <= m < size,
                0 <= k,
                k < q || (k == q && m > 0),
        ;
    } else {
        assert(k * size >= len) by (nonlinear_arith)
            requires
                len == size * q + m,
                0 <= m < size,
                k >= q + 1 || (k >= q && m == 0),
        ;
    }
}

proof fn lemma_doc_piece_rows(d: int, len: int, size: int, k: nat)
    requires
        0 <= d <= usize::MAX,
        0 <= len <= i64::MAX,
        0 < size,
        k <= doc_pieces(d, len, size).len(),
    ensures
        slice_rows(doc_pieces(d, len, size), k) == rows_at(
            d,
            0,
            if k * size < len {
                k * size
            } else {
                len
            },
        ),
    decreases k,
{
    let p = doc_pieces(d, len, size);
    if k == 0 {
        assert(0 * size == 0);
        assert(slice_rows(p, 0) =~= rows_at(d, 0, 0));
    } else {
        let m = (k - 1) as nat;
        lemma_doc_piece_rows(d, len, size, m);
        lemma_piece(len, size, m as int);
        assert(slice_rows(p, k) =~= rows_at(
            d,
            0,
            if k * size < len {
                k * size
            } else {
                len
            },
        ));
    }
}

proof fn lemma_slice_rows_join(a: Seq<RowSlice>, b: Seq<RowSlice>, n: nat)
    requires
        n <= b.len(),
    ensures
        slice_rows(a + b, a.len() + n) == slice_rows(a, a.len()) + slice_rows(b, n),
    decreases n,
{
    if n == 0 {
        lemma_slice_rows_prefix(a, b, a.len());
        assert(slice_rows(a, a.len()) + slice_rows(b, 0) =~= slice_rows(a, a.len()));
    } else {
        lemma_slice_rows_join(a, b, (n - 1) as nat);
        let last = b[n - 1];
        assert((a + b)[a.len() + n - 1] == last);
        assert(slice_rows(a + b, a.len() + n) =~= slice_rows(a, a.len()) + slice_rows(b, n));
    }
}

proof fn lemma_slice_rows_prefix(a: Seq<RowSlice>, b: Seq<RowSlice>, n: nat)
    requires
        n <= a.len(),
    ensures
        slice_rows(a + b, n) == slice_rows(a, n),
    decreases n,
{
    if n > 0 {
        lemma_slice_rows_prefix(a, b, (n - 1) as nat);
    }
}

/// The pieces have all rows of all documents in order, each once.
pub proof fn pieces_cover_tokens(lens: Seq<i64>, size: int, n: nat)
    requires
        are_lengths(lens),
        0 < size,
        n <= lens.len() <= usize::MAX,
    ensures
        slice_rows(token_pieces(lens, size, n), token_pieces(lens, size, n).len()) == all_rows(
            lens,
            n,
        ),
    decreases n,
{
    if n > 0 {
        let m = (n - 1) as nat;
        pieces_cover_tokens(lens, size, m);
        let len = lens[n - 1] as int;
        assert(0 <= lens[n - 1]);
        let last = doc_pieces(n - 1, len, size);
        lemma_slice_rows_join(token_pieces(lens, size, m), last, last.len());
        lemma_piece(len, size, ceil_div(len, size));
        lemma_piece(len, size, 0);
        lemma_doc_piece_rows(n - 1, len, size, last.len());
    }
}

proof fn lemma_piece_sum(pieces: Seq<RowSlice>, n: nat)
    requires
        n <= pieces.len(),
        are_lengths(piece_rows(pieces)),
    ensures
        slice_rows(pieces, n).len() == rows_before(piece_rows(pieces), n),
    decreases n,
{
    if n > 0 {
        lemma_piece_sum(pieces, (n - 1) as nat);
        assert(0 <= piece_rows(pieces)[n - 1]);
    }
}

/// Cuts the tokens of all documents into pieces, and gathers pieces into batches of at least as
/// many rows as are searched for at once, but for the last batch.
pub fn token_batches(lens: &Vec<i64>, token_batch_size: usize) -> (r: (
    Vec<RowSlice>,
    Vec<(usize, usize)>,
))
    requires
        are_lengths(lens@),
        total_rows(lens@) <= i64::MAX,
    ensures
        r.0@ == token_pieces(lens@, rows_at_once(token_batch_size), lens@.len()),
        is_batching(r.1@, piece_rows(r.0@), rows_at_once(token_batch_size)),
{
    let size: i64 = if token_batch_size >= 1 && token_batch_size as u64 <= i64::MAX as u64 {
        token_batch_size as i64
    } else {
        1
    };
    let mut pieces: Vec<RowSlice> = Vec::new();
    let mut counts: Vec<i64> = Vec::new();
    let mut d: usize = 0;
    while d < lens.len()
        invariant
            d <= lens@.len(),
            1 <= size,
            are_lengths(lens@),
            pieces@ == token_pieces(lens@, size as int, d as nat),
            counts@ == piece_rows(pieces@),
            are_lengths(counts@),
        decreases lens@.len() - d,
    {
        let len: i64 = lens[d];
        let ghost before = pieces@;
        let ghost cut = doc_pieces(d as int, len as int, size as int);
        let ghost mut k: int = 0;
        let mut start: i64 = 0;
        assert(0 <= lens@[d as int]);
        assert(0 * (size as int) == 0);
        assert(before + cut.take(0) =~= before);
        proof {
            lemma_piece(len as int, size as int, 0);
        }
        while start < len
            invariant
                0 <= start <= len,
                1 <= size,
                0 <= k <= cut.len(),
                cut == doc_pieces(d as int, len as int, size as int),
                start == if k * size < len {
                    k * size
                } else {
                    len as int
                },
                pieces@ == before + cut.take(k),
                counts@ == piece_rows(pieces@),
                are_lengths(counts@),
            decreases len - start,
        {
            let rest: i64 = len - start;
            let take: i64 = if size < rest {
                size
            } else {
                rest
            };
            proof {
                lemma_piece(len as int, size as int, k);
            }
            pieces.push(RowSlice { place: d, start, rows: take });
            counts.push(take);
            start = start + take;
            proof {
                assert(cut.take(k + 1) =~= cut.take(k).push(cut[k]));
                k = k + 1;
                assert(pieces@ =~= before + cut.take(k));
                assert(counts@ =~= piece_rows(pieces@));
            }
        }
        proof {
            lemma_piece(len as int, size as int, k);
            assert(k == cut.len());
            assert(cut.take(k) =~= cut);
        }
        d += 1;
    }
    proof {
        let n = lens@.len();
        pieces_cover_tokens(lens@, size as int, n);
        lemma_piece_sum(pieces@, pieces@.len());
        lemma_all_rows_len(lens@, n);
    }
    let batches = row_batches(&counts, size);
    (pieces, batches)
}

/// A batch of rows of `dim` values each, repeated so that there are at least `pad_to` rows; with
/// how many rows it has, and how many once it is repeated. An empty batch stays empty.
pub fn pad_token_batch_along_rows(batch: &Vec<Score>, rows: usize, pad_to: usize) -> (r: (
    Vec<Score>,
    usize,
    usize,
))
    requires
        rows == 0 ==> batch@.len() == 0,
        rows > 0 ==> rows * repeats_for(rows as int, pad_to as int) <= usize::MAX && batch@.len()
            * repeats_for(rows as int, pad_to as int) <= usize::MAX,
    ensures
        r.1 == rows,
        if rows == 0 {
            r.0@.len() == 0 && r.2 == 0
        } else {
            &&& r.0@ == repeated(batch@, repeats_for(rows as int, pad_to as int))
            &&& r.2 == rows * repeats_for(rows as int, pad_to as int)
        },
{
    if rows == 0 {
        return (Vec::new(), 0, 0);
    }
    let repeats: usize = query_repeats(rows, pad_to);
    (repeat_block(batch, repeats), rows, rows * repeats)
}

/// How the graph over anchors is searched: the length of the list of candidates, one at least, and
/// the search mode.
pub fn search_settings(itopk_size: usize, algo: Option<&str>) -> (r: (usize, SearchAlgoMode))
    ensures
        r.0 == if itopk_size > 1 {
            itopk_size
        } else {
            1
        },
        r.1 == mode_of(setting(algo)),
{
    let itopk: usize = if itopk_size > 1 {
        itopk_size
    } else {
        1
    };
    (itopk, search_algo(algo))
}

/// The anchors nearest to the first `rows` rows that were searched for. An error gives the first
/// row whose anchor does not exist.
pub fn assign_tokens(neighbors: &Vec<u32>, rows: usize, n_anchors: usize) -> (r: Result<
    Vec<i64>,
    AnchorError,
>)
    requires
        rows <= neighbors@.len(),
    ensures
        r is Ok <==> forall|i: int| 0 <= i < rows ==> #[trigger] neighbors@[i] < n_anchors,
        r matches Ok(ids) ==> ids@ == Seq::new(rows as nat, |i: int| neighbors@[i] as i64),
        r matches Err(e) ==> {
            &&& e matches AnchorError::NeighborOutOfRange { row, id } && row < rows && id
                == neighbors@[row as int] && id >= n_anchors && forall|i: int|
                0 <= i < row ==> #[trigger] neighbors@[i] < n_anchors
        },
{
    let mut ids: Vec<i64> = Vec::new();
    let mut i: usize = 0;
    while i < rows
        invariant
            i <= rows <= neighbors@.len(),
            ids@ == Seq::new(i as nat, |j: int| neighbors@[j] as i64),
            forall|j: int| 0 <= j < i ==> #[trigger] neighbors@[j] < n_anchors,
        decreases rows - i,
    {
        let id: u32 = neighbors[i];
        if id as u64 >= n_anchors as u64 {
            assert(neighbors@[i as int] >= n_anchors);
            return Err(AnchorError::NeighborOutOfRange { row: i, id });
        }
        ids.push(id as i64);
        i += 1;
        assert(ids@ =~= Seq::new(i as nat, |j: int| neighbors@[j] as i64));
    }
    Ok(ids)
}

/// Which anchors have a token nearest to them.
pub open spec fn has_token(assigned: Seq<bool>, ids: Seq<i64>) -> Seq<bool> {
    Seq::new(assigned.len(), |a: int| assigned[a] || ids.contains(a as i64))
}

/// Notes the anchors that tokens were assigned to.
pub fn note_tokens(assigned: &mut Vec<bool>, ids: &Vec<i64>)
    requires
        forall|i: int| 0 <= i < ids@.len() ==> 0 <= #[trigger] ids@[i] < old(assigned)@.len(),
        old(assigned)@.len() <= i64::MAX,
    ensures
        final(assigned)@ == has_token(old(assigned)@, ids@),
        final(assigned)@.len() == old(assigned)@.len(),
        forall|a: int|
            0 <= a < old(assigned)@.len() ==> (#[trigger] final(assigned)@[a] <==> old(
                assigned,
            )@[a] || exists|i: int| 0 <= i < ids@.len() && #[trigger] ids@[i] == a),
{
    let ghost before = assigned@;
    let mut i: usize = 0;
    assert(assigned@ =~= has_token(before, ids@.take(0)));
    while i < ids.len()
        invariant
            i <= ids@.len(),
            assigned@.len() == before.len(),
            before.len() <= i64::MAX,
            forall|j: int| 0 <= j < ids@.len() ==> 0 <= #[trigger] ids@[j] < before.len(),
            assigned@ == has_token(before, ids@.take(i as int)),
        decreases ids@.len() - i,
    {
        let n: usize = assigned.len();
        assert(0 <= ids@[i as int] < n);
        let ghost short = ids@.take(i as int);
        assigned.set(ids[i] as usize, true);
        proof {
            let long = ids@.take(i + 1);
            assert(long =~= short.push(ids@[i as int]));
            assert forall|a: int| 0 <= a < before.len() implies #[trigger] assigned@[a] == (
            before[a] || long.contains(a as i64)) by {
                if short.contains(a as i64) {
                    let j = short.index_of(a as i64);
                    assert(long[j] == a as i64);
                }
                if long.contains(a as i64) && ids@[i as int] != a as i64 {
                    let j = long.index_of(a as i64);
                    assert(short[j] == a as i64);
                }
                assert(long[i as int] == ids@[i as int]);
            }
            assert(assigned@ =~= has_token(before, long));
        }
        i += 1;
    }
    assert(ids@.take(i as int) =~= ids@);
    assert forall|a: int| 0 <= a < before.len() implies (#[trigger] assigned@[a] <==> before[a]
        || exists|k: int| 0 <= k < ids@.len() && #[trigger] ids@[k] == a) by {
        if ids@.contains(a as i64) {
            let k = ids@.index_of(a as i64);
            assert(ids@[k] == a);
        }
    }
}

/// What becomes of the anchors at the end of an iteration. Anchors with tokens move to the mean of
/// these; the others are dealt with as said.
pub enum AnchorUpdate {
    /// The others stay.
    Keep,
    /// The others are replaced by these rows.
    Reseed { empty: Vec<i64>, rows: Vec<TokenRow> },
    /// Only these stay.
    Prune { kept: Vec<i64> },
}

/// `r` lists, in increasing order, the anchors for which `assigned` is `value`.
pub open spec fn lists_anchors(r: Seq<i64>, assigned: Seq<bool>, value: bool) -> bool {
    &&& increasing(r)
    &&& forall|a: i64|
        #[trigger] r.contains(a) <==> 0 <= a < assigned.len() && assigned[a as int] == value
}

fn list_anchors(assigned: &Vec<bool>, value: bool) -> (r: Vec<i64>)
    requires
        assigned@.len() <= i64::MAX,
    ensures
        lists_anchors(r@, assigned@, value),
        r@.len() <= assigned@.len(),
{
    let mut out: Vec<i64> = Vec::new();
    let mut i: usize = 0;
    while i < assigned.len()
        invariant
            i <= assigned@.len() <= i64::MAX,
            out@.len() <= i,
            lists_anchors(out@, assigned@.take(i as int), value),
        decreases assigned@.len() - i,
    {
        let ghost known = out@;
        assert forall|j: int| 0 <= j < known.len() implies 0 <= #[trigger] known[j] < i by {
            assert(known.contains(known[j]));
        }
        if assigned[i] == value {
            out.push(i as i64);
        }
        proof {
            let now = assigned@.take(i + 1);
            assert forall|a: i64| #[trigger] out@.contains(a) <==> 0 <= a < now.len() && now[a as int]
                == value by {
                assert(known.contains(a) <==> 0 <= a < i && assigned@.take(i as int)[a as int]
                    == value);
                if known.contains(a) {
                    let j = known.index_of(a);
                    assert(out@[j] == a);
                }
                if a == i && assigned@[i as int] == value {
                    assert(out@[known.len() as int] == a);
                }
                if out@.contains(a) && a != i {
                    let j = out@.index_of(a);
                    assert(known[j] == a);
                }
            }
        }
        i += 1;
    }
    assert(assigned@.take(i as int) =~= assigned@);
    out
}

/// The training of anchors.
pub struct AnchorTraining {
    plan: SamplingPlan,
    n_anchors: usize,
    policy: EmptyHandling,
    rng: rand::rngs::StdRng,
}

/// `rows` are `n` rows of documents.
pub open spec fn are_token_rows(rows: Seq<TokenRow>, lens: Seq<i64>, n: int) -> bool {
    &&& rows.len() == n
    &&& forall|i: int|
        0 <= i < n ==> (#[trigger] rows[i]).doc < lens.len() && 0 <= rows[i].row
            < lens[rows[i].doc as int]
}

/// Why training cannot begin, if it cannot.
pub open spec fn training_fault(
    shapes: Seq<Vec<i64>>,
    empty_handling: Option<Seq<char>>,
    graph_available: bool,
) -> Option<AnchorError> {
    if !graph_available {
        Some(AnchorError::GraphUnavailable)
    } else if !are_matrices(shapes, shapes.len() as int) {
        Some(AnchorError::NotMatrix(first_other(shapes)))
    } else if empty_handling matches Some(s) && policy_of(s) is Err {
        Some(AnchorError::UnknownEmptyHandling)
    } else if shapes.len() == 0 {
        Some(AnchorError::NoDocuments)
    } else if total_rows(token_counts(shapes)) == 0 {
        Some(AnchorError::NoTokens)
    } else {
        None
    }
}

/// The first document that is no matrix.
pub open spec fn first_other(shapes: Seq<Vec<i64>>) -> usize {
    choose|i: usize|
        i < shapes.len() && (#[trigger] shapes[i as int])@.len() != 2 && are_matrices(
            shapes,
            i as int,
        )
}

/// Why training cannot begin, if it cannot.
pub fn find_training_fault(
    shapes: &Vec<Vec<i64>>,
    empty_handling: Option<&str>,
    graph_available: bool,
) -> (r: Option<AnchorError>)
    requires
        are_shapes(shapes@),
    ensures
        r == training_fault(shapes@, setting(empty_handling), graph_available),
        !graph_available <==> r == Some(AnchorError::GraphUnavailable),
        r matches Some(AnchorError::NotMatrix(i)) ==> i < shapes@.len() && shapes@[i as int]@.len()
            != 2 && forall|j: int| 0 <= j < i ==> (#[trigger] shapes@[j])@.len() == 2,
        graph_available && (exists|j: int|
            0 <= j < shapes@.len() && (#[trigger] shapes@[j])@.len() != 2) ==> r is Some
            && r->0 is NotMatrix,
        r == Some(AnchorError::UnknownEmptyHandling) ==> empty_handling is Some && {
            let name = ascii_lower(trim(empty_handling->0@));
            name != "sticky"@ && name != "reseed"@ && name != "prune"@
        },
        r == Some(AnchorError::NoDocuments) ==> shapes@.len() == 0,
        r == Some(AnchorError::NoTokens) ==> total_rows(token_counts(shapes@)) == 0,
        r is None ==> {
            &&& shapes@.len() > 0
            &&& forall|j: int| 0 <= j < shapes@.len() ==> (#[trigger] shapes@[j])@.len() == 2
            &&& total_rows(token_counts(shapes@)) > 0
            &&& empty_handling matches Some(s) ==> {
                let name = ascii_lower(trim(s@));
                name == "sticky"@ || name == "reseed"@ || name == "prune"@
            }
        },
        !(r matches Some(AnchorError::NeighborOutOfRange { .. })),
        r != Some(AnchorError::AllEmpty),
{
    if !graph_available {
        return Some(AnchorError::GraphUnavailable);
    }
    let tokens: i64 = match total_tokens(shapes) {
        Ok(n) => n,
        Err(e) => {
            proof {
                let i = e->NotMatrix_0;
                let c = first_other(shapes@);
                assert(shapes@[i as int]@.len() != 2);
                assert(c < shapes@.len() && shapes@[c as int]@.len() != 2 && are_matrices(
                    shapes@,
                    c as int,
                ));
                assert(c == i);
            }
            return Some(e);
        },
    };
    if let Some(s) = empty_handling {
        if let Err(e) = parse_empty_handling(s) {
            return Some(e);
        }
    }
    if shapes.len() == 0 {
        Some(AnchorError::NoDocuments)
    } else if tokens == 0 {
        Some(AnchorError::NoTokens)
    } else {
        None
    }
}

impl AnchorTraining {
    /// There is an anchor, and there are tokens.
    pub closed spec fn wf(&self) -> bool {
        self.plan.wf() && 0 < self.n_anchors <= i64::MAX
    }

    /// The number of tokens of every document.
    pub closed spec fn tokens(&self) -> Seq<i64> {
        self.plan.lens@
    }

    /// Dimension of the tokens.
    pub closed spec fn dimension(&self) -> i64 {
        self.plan.dim
    }

    /// The number of anchors.
    pub closed spec fn anchors(&self) -> usize {
        self.n_anchors
    }

    /// What becomes of anchors without tokens.
    pub closed spec fn empty_handling(&self) -> EmptyHandling {
        self.policy
    }

    /// The generator that rows are drawn with next.
    pub closed spec fn generator(&self) -> rand::rngs::StdRng {
        self.rng
    }

    /// Begins training: draws the rows that the anchors start from. Without a number of anchors,
    /// there is the usual number; without a policy for anchors without tokens, they stay. A seed
    /// fixes the rows.
    pub fn begin(
        shapes: &Vec<Vec<i64>>,
        n_anchors: Option<usize>,
        seed: Option<u64>,
        empty_handling: Option<&str>,
        graph_available: bool,
    ) -> (r: Result<(AnchorTraining, Vec<TokenRow>), AnchorError>)
        requires
            are_shapes(shapes@),
            training_fault(shapes@, setting(empty_handling), graph_available) is None ==> match n_anchors {
                Some(n) => 0 < n <= i64::MAX,
                None => total_rows(token_counts(shapes@)) / 40 <= usize::MAX,
            },
        ensures
            match training_fault(shapes@, setting(empty_handling), graph_available) {
                Some(e) => r matches Err(f) && f == e,
                None => r matches Ok((t, rows)) && {
                    &&& t.wf()
                    &&& t.tokens() == token_counts(shapes@)
                    &&& t.dimension() == shapes@[0]@[1]
                    &&& t.anchors() == match n_anchors {
                        Some(n) => n as int,
                        None => usual_anchors(total_rows(token_counts(shapes@))),
                    }
                    &&& Ok::<EmptyHandling, AnchorError>(t.empty_handling()) == match setting(
                        empty_handling,
                    ) {
                        Some(s) => policy_of(s),
                        None => Ok(EmptyHandling::Sticky),
                    }
                    &&& are_token_rows(rows@, t.tokens(), t.anchors() as int)
                    &&& starts_with(t.tokens(), seed, t.anchors() as nat, rows@, t.generator())
                },
            },
            r matches Ok((t, rows)) ==> {
                &&& n_anchors matches Some(n) ==> t.anchors() == n
                &&& n_anchors is None ==> t.anchors() >= 1 && (40 * t.anchors() <= total_rows(
                    t.tokens(),
                ) < 40 * (t.anchors() + 1) || t.anchors() == 1 && total_rows(t.tokens()) < 40)
                &&& t.tokens().len() == shapes@.len()
                &&& forall|i: int|
                    0 <= i < shapes@.len() ==> #[trigger] t.tokens()[i] == shapes@[i]@[0]
                &&& empty_handling is None ==> t.empty_handling() == EmptyHandling::Sticky
                &&& empty_handling matches Some(s) ==> {
                    let name = ascii_lower(trim(s@));
                    &&& t.empty_handling() == EmptyHandling::Sticky <==> name == "sticky"@
                    &&& t.empty_handling() == EmptyHandling::Reseed <==> name == "reseed"@
                    &&& t.empty_handling() == EmptyHandling::Prune <==> name == "prune"@
                }
                &&& rows@.len() == t.anchors()
                &&& forall|i: int|
                    0 <= i < rows@.len() ==> (#[trigger] rows@[i]).doc < shapes@.len() && 0
                        <= rows@[i].row < shapes@[rows@[i].doc as int]@[0]
                &&& seed matches Some(s) ==> (rows@, t.generator()) == drawn_rows(
                    t.tokens(),
                    generator_of(s),
                    t.anchors() as nat,
                )
            },
    {
        if let Some(e) = find_training_fault(shapes, empty_handling, graph_available) {
            return Err(e);
        }
        proof {
            lemma_policies_differ();
        }
        let policy = match empty_handling {
            Some(s) => match parse_empty_handling(s) {
                Ok(p) => p,
                Err(e) => {
                    return Err(e);
                },
            },
            None => EmptyHandling::Sticky,
        };
        let plan = match token_sampling_plan(shapes) {
            Ok(p) => p,
            Err(e) => {
                return Err(e);
            },
        };
        let n: usize = match n_anchors {
            Some(n) => n,
            None => default_n_anchors(plan.running),
        };
        let mut rng = row_generator(seed);
        let ghost first = rng;
        let rows = sample_token_rows(&plan, n, &mut rng);
        assert(starts_with(plan.lens@, seed, n as nat, rows@, rng)) by {
            assert((rows@, rng) == drawn_rows(plan.lens@, first, n as nat));
        }
        Ok((AnchorTraining { plan, n_anchors: n, policy, rng }, rows))
    }

    /// Ends an iteration. `assigned` says which anchors have a token nearest to them.
    pub fn end_iteration(&mut self, assigned: &Vec<bool>) -> (r: Result<AnchorUpdate, AnchorError>)
        requires
            old(self).wf(),
            assigned@.len() == old(self).anchors(),
        ensures
            final(self).wf(),
            final(self).tokens() == old(self).tokens(),
            final(self).dimension() == old(self).dimension(),
            final(self).empty_handling() == old(self).empty_handling(),
            final(self).anchors() <= old(self).anchors(),
            !(r matches Ok(AnchorUpdate::Prune { .. })) ==> final(self).anchors() == old(
                self,
            ).anchors(),
            !(r matches Ok(AnchorUpdate::Reseed { .. })) ==> final(self).generator() == old(
                self,
            ).generator(),
            if !assigned@.contains(false) || old(self).empty_handling() == EmptyHandling::Sticky {
                r matches Ok(AnchorUpdate::Keep)
            } else if old(self).empty_handling() == EmptyHandling::Reseed {
                r matches Ok(AnchorUpdate::Reseed { empty, rows }) && lists_anchors(
                    empty@,
                    assigned@,
                    false,
                ) && are_token_rows(rows@, final(self).tokens(), empty@.len() as int) && (
                rows@,
                final(self).generator(),
                ) == drawn_rows(old(self).tokens(), old(self).generator(), empty@.len())
            } else if !assigned@.contains(true) {
                r matches Err(e) && e == AnchorError::AllEmpty
            } else {
                r matches Ok(AnchorUpdate::Prune { kept }) && lists_anchors(kept@, assigned@, true)
                    && final(self).anchors() == kept@.len()
            },
            r matches Ok(AnchorUpdate::Keep) <==> old(self).empty_handling()
                == EmptyHandling::Sticky || forall|a: int|
                0 <= a < assigned@.len() ==> #[trigger] assigned@[a],
            r matches Ok(AnchorUpdate::Reseed { empty, rows }) ==> {
                &&& old(self).empty_handling() == EmptyHandling::Reseed
                &&& forall|i: int, j: int|
                    0 <= i < j < empty@.len() ==> #[trigger] empty@[i] < #[trigger] empty@[j]
                &&& forall|a: i64| #[trigger]
                    empty@.contains(a) <==> 0 <= a < assigned@.len() && !assigned@[a as int]
                &&& rows@.len() == empty@.len()
                &&& (rows@, final(self).generator()) == drawn_rows(
                    old(self).tokens(),
                    old(self).generator(),
                    empty@.len(),
                )
            },
            r matches Ok(AnchorUpdate::Prune { kept }) ==> {
                &&& old(self).empty_handling() == EmptyHandling::Prune
                &&& forall|i: int, j: int|
                    0 <= i < j < kept@.len() ==> #[trigger] kept@[i] < #[trigger] kept@[j]
                &&& forall|a: i64| #[trigger]
                    kept@.contains(a) <==> 0 <= a < assigned@.len() && assigned@[a as int]
                &&& kept@.len() > 0
            },
            r is Err <==> old(self).empty_handling() == EmptyHandling::Prune && !(forall|a: int|
                0 <= a < assigned@.len() ==> #[trigger] assigned@[a]) && forall|a: int|
                0 <= a < assigned@.len() ==> !#[trigger] assigned@[a],
            r matches Err(e) ==> e == AnchorError::AllEmpty,
    {
        let empty = list_anchors(assigned, false);
        proof {
            if assigned@.contains(false) {
                let i = assigned@.index_of(false);
                assert(empty@.contains(i as i64));
            }
            if empty@.len() > 0 {
                assert(empty@.contains(empty@[0]));
                assert(assigned@[empty@[0] as int] == false);
            }
        }
        if empty.len() == 0 {
            return Ok(AnchorUpdate::Keep);
        }
        match self.policy {
            EmptyHandling::Sticky => Ok(AnchorUpdate::Keep),
            EmptyHandling::Reseed => {
                let rows = sample_token_rows(&self.plan, empty.len(), &mut self.rng);
                Ok(AnchorUpdate::Reseed { empty, rows })
            },
            EmptyHandling::Prune => {
                let kept = list_anchors(assigned, true);
                proof {
                    if assigned@.contains(true) {
                        let i = assigned@.index_of(true);
                        assert(kept@.contains(i as i64));
                    }
                    if kept@.len() > 0 {
                        assert(kept@.contains(kept@[0]));
                        assert(assigned@[kept@[0] as int] == true);
                    }
                }
                if kept.len() == 0 {
                    return Err(AnchorError::AllEmpty);
                }
                self.n_anchors = kept.len();
                Ok(AnchorUpdate::Prune { kept })
            },
        }
    }

    /// The number of anchors.
    pub fn anchor_count(&self) -> (r: usize)
        ensures
            r == self.anchors(),
    {
        self.n_anchors
    }

    /// The tokens of all documents, cut into pieces and gathered into batches.
    pub fn batches(&self, token_batch_size: usize) -> (r: (Vec<RowSlice>, Vec<(usize, usize)>))
        requires
            self.wf(),
        ensures
            r.0@ == token_pieces(
                self.tokens(),
                rows_at_once(token_batch_size),
                self.tokens().len(),
            ),
            is_batching(r.1@, piece_rows(r.0@), rows_at_once(token_batch_size)),
    {
        token_batches(&self.plan.lens, token_batch_size)
    }
}

/// Policies go by their names, whatever the case of the letters and the space around them.
pub proof fn policies_go_by_their_names(text: Seq<char>)
    ensures
        policy_of(text) == Ok::<EmptyHandling, AnchorError>(EmptyHandling::Sticky) <==> ascii_lower(
            trim(text),
        ) == "sticky"@,
        policy_of(text) == Ok::<EmptyHandling, AnchorError>(EmptyHandling::Reseed) <==> ascii_lower(
            trim(text),
        ) == "reseed"@,
        policy_of(text) == Ok::<EmptyHandling, AnchorError>(EmptyHandling::Prune) <==> ascii_lower(
            trim(text),
        ) == "prune"@,
        policy_of(text) matches Err(e) ==> e == AnchorError::UnknownEmptyHandling,
{
    lemma_policies_differ();
}

/// There is one anchor for every forty tokens, and never none.
pub proof fn every_forty_tokens_have_an_anchor(tokens: int)
    requires
        0 <= tokens,
    ensures
        usual_anchors(tokens) >= 1,
        tokens >= 40 ==> 40 * usual_anchors(tokens) <= tokens < 40 * (usual_anchors(tokens) + 1),
        tokens < 40 ==> usual_anchors(tokens) == 1,
{
}

/// The tokens of a document are the first size of its matrix.
pub proof fn documents_have_as_many_tokens_as_rows(shapes: Seq<Vec<i64>>, i: int)
    requires
        0 <= i < shapes.len(),
    ensures
        token_counts(shapes).len() == shapes.len(),
        token_counts(shapes)[i] == shapes[i]@[0],
{
}

/// Rows are searched for in the numbers asked for, and one by one where the number is out of range.
pub proof fn rows_are_searched_as_asked(token_batch_size: usize)
    ensures
        1 <= token_batch_size <= 0x7fff_ffff_ffff_ffff ==> rows_at_once(token_batch_size)
            == token_batch_size,
        token_batch_size == 0 || token_batch_size > 0x7fff_ffff_ffff_ffff ==> rows_at_once(
            token_batch_size,
        ) == 1,
{
}

/// A row is drawn in two steps: the first number drawn, below the number of all tokens, falls on the
/// tokens of one document, and the second, below the number of its tokens, is the row of it.
pub proof fn rows_are_drawn_by_token(lens: Seq<i64>, rng: rand::rngs::StdRng, d: int)
    requires
        are_lengths(lens),
        lens.len() <= usize::MAX,
        0 < total_rows(lens) <= i64::MAX,
        0 <= d < lens.len(),
        rows_before(lens, d as nat) <= drawn(rng, total_rows(lens) as i64) < rows_before(
            lens,
            d as nat,
        ) + lens[d],
    ensures
        ({
            let first = after_draw(rng, total_rows(lens) as i64);
            drawn_row(lens, rng) == (
                TokenRow { doc: d as usize, row: drawn(first, lens[d]) },
                after_draw(first, lens[d]),
            )
        }),
{
    lemma_rows_monotonic(lens, 0, d as nat);
    lemma_rows_monotonic(lens, (d + 1) as nat, lens.len());
    tokens_are_shared_out(lens, d, drawn(rng, total_rows(lens) as i64) as int);
}

/// Several rows are drawn one after another, each with the generator that the one before it leaves.
pub proof fn rows_are_drawn_in_turn(lens: Seq<i64>, rng: rand::rngs::StdRng, n: nat, i: nat)
    requires
        i < n,
    ensures
        drawn_rows(lens, rng, n).0.len() == n,
        drawn_rows(lens, rng, 0).1 == rng,
        drawn_rows(lens, rng, n).0[i as int] == drawn_row(lens, drawn_rows(lens, rng, i).1).0,
        drawn_rows(lens, rng, i + 1).1 == drawn_row(lens, drawn_rows(lens, rng, i).1).1,
    decreases n,
{
    if n > 1 {
        rows_are_drawn_in_turn(
            lens,
            rng,
            (n - 1) as nat,
            if i < n - 1 {
                i
            } else {
                0
            },
        );
    } else {
        assert(drawn_rows(lens, rng, 0).0.len() == 0);
    }
}

/// A piece lies in its document, has no more rows than are searched for at once, and has fewer only
/// at the end of the document.
pub proof fn pieces_are_as_long_as_they_may_be(lens: Seq<i64>, size: int, n: nat, i: int)
    requires
        are_lengths(lens),
        0 < size,
        n <= lens.len() <= usize::MAX,
        0 <= i < token_pieces(lens, size, n).len(),
    ensures
        ({
            let p = token_pieces(lens, size, n)[i];
            &&& p.place < n
            &&& 0 <= p.start
            &&& 0 < p.rows <= size
            &&& p.start + p.rows <= lens[p.place as int]
            &&& p.rows == size || p.start + p.rows == lens[p.place as int]
            &&& piece_rows(token_pieces(lens, size, n)).len() == token_pieces(lens, size, n).len()
            &&& piece_rows(token_pieces(lens, size, n))[i] == p.rows
        }),
    decreases n,
{
    let m = (n - 1) as nat;
    let before = token_pieces(lens, size, m);
    let len = lens[m as int] as int;
    if i < before.len() {
        pieces_are_as_long_as_they_may_be(lens, size, m, i);
    } else {
        let k = i - before.len();
        assert(0 <= lens[m as int]);
        lemma_piece(len, size, k);
        assert(token_pieces(lens, size, n)[i] == doc_pieces(m as int, len, size)[k]);
    }
}

/// The list of candidates of a search over anchors is as long as asked for, and never empty.
pub proof fn anchor_searches_keep_a_candidate(
    itopk_size: usize,
    algo: Option<&str>,
    r: (usize, SearchAlgoMode),
)
    requires
        call_ensures(search_settings, (itopk_size, algo), r),
    ensures
        r.0 >= 1,
        itopk_size >= 1 ==> r.0 == itopk_size,
        algo is None ==> r.1 == SearchAlgoMode::Auto,
        algo is Some ==> r.1 == mode_of(Some(algo->0@)),
{
}

/// Every row is assigned the anchor that was found for it; when one of them does not exist, the
/// first such row is reported.
pub proof fn rows_are_assigned_their_neighbors(
    neighbors: &Vec<u32>,
    rows: usize,
    n_anchors: usize,
    r: Result<Vec<i64>, AnchorError>,
    i: int,
)
    requires
        call_ensures(assign_tokens, (neighbors, rows, n_anchors), r),
        0 <= i < rows,
    ensures
        r matches Ok(ids) ==> ids@.len() == rows && ids@[i] == neighbors@[i] && neighbors@[i]
            < n_anchors,
        neighbors@[i] >= n_anchors ==> r is Err,
        r matches Err(e) ==> {
            &&& e is NeighborOutOfRange
            &&& e->row < rows
            &&& e->id == neighbors@[e->row as int]
            &&& e->id >= n_anchors
            &&& i < e->row ==> neighbors@[i] < n_anchors
        },
{
}

/// A batch is padded by repeating it: the rows stand first, and there are as many as asked for
/// without a whole repetition too many. An empty batch stays empty.
pub proof fn batches_are_padded_by_repetition(
    batch: &Vec<Score>,
    rows: usize,
    pad_to: usize,
    r: (Vec<Score>, usize, usize),
)
    requires
        call_ensures(pad_token_batch_along_rows, (batch, rows, pad_to), r),
        pad_to <= 0x7fff_ffff_ffff_ffff,
    ensures
        r.1 == rows,
        rows == 0 ==> r.2 == 0 && r.0@.len() == 0,
        rows > 0 ==> r.2 >= rows && r.2 >= pad_to && (r.2 == rows || r.2 - rows < pad_to),
        rows > 0 ==> r.0@.take(batch@.len() as int) == batch@,
{
    if rows > 0 {
        let n = repeats_for(rows as int, pad_to as int);
        crate::centroids::padding_reaches(rows as int, pad_to as int);
        crate::centroids::blocks_are_repeated_as_often_as_needed(rows as int, pad_to as int);
        assert(rows * (n - 1) == rows * n - rows) by (nonlinear_arith);
        if n == 1 {
            assert(rows * 1 == rows);
        }
        assert(batch@.len() * n >= batch@.len()) by (nonlinear_arith)
            requires
                n >= 1,
        ;
        assert forall|i: int| 0 <= i < batch@.len() implies #[trigger] r.0@[i] == batch@[i] by {
            crate::centroids::repeated_blocks_hold_the_block(batch@, n, 0, i);
            assert(0 * batch@.len() == 0);
        }
        assert(r.0@.take(batch@.len() as int) =~= batch@);
    }
}

/// Training starts with as many rows as there are anchors: those asked for, or one for every forty
/// tokens and never none. Every row is a row of a document, and a seed fixes them. Anchors without
/// tokens stay unless another policy is named.
pub proof fn training_starts_from_rows(
    shapes: &Vec<Vec<i64>>,
    n_anchors: Option<usize>,
    seed: Option<u64>,
    empty_handling: Option<&str>,
    graph_available: bool,
    r: Result<(AnchorTraining, Vec<TokenRow>), AnchorError>,
)
    requires
        call_ensures(
            AnchorTraining::begin,
            (shapes, n_anchors, seed, empty_handling, graph_available),
            r,
        ),
    ensures
        r is Ok ==> {
            let (t, rows) = r->Ok_0;
            let tokens = total_rows(t.tokens());
            &&& graph_available
            &&& n_anchors is Some ==> t.anchors() == n_anchors->0
            &&& n_anchors is None && tokens >= 40 ==> 40 * t.anchors() <= tokens < 40 * (t.anchors()
                + 1)
            &&& n_anchors is None && tokens < 40 ==> t.anchors() == 1
            &&& rows@.len() == t.anchors()
            &&& forall|i: int|
                0 <= i < rows@.len() ==> (#[trigger] rows@[i]).doc < shapes@.len() && 0
                    <= rows@[i].row < shapes@[rows@[i].doc as int]@[0]
            &&& seed is Some ==> (rows@, t.generator()) == drawn_rows(
                t.tokens(),
                generator_of(seed->0),
                t.anchors() as nat,
            )
            &&& empty_handling is None ==> t.empty_handling() == EmptyHandling::Sticky
        },
{
}

} // verus!
