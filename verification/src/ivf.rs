//! The inverted file: for every centroid, the passages that have a token near it.

use vstd::prelude::*;

use crate::order::{
    increasing, lemma_sorted_unique_is, same_members, sort_unique, sorted_lists_hold_the_values,
    sorted_unique,
};
use crate::strided::{
    append, are_lengths, ids_in, lemma_rows_monotonic, rows_are_added_up, rows_before, split_lists,
    total_rows,
};

verus! {

/// The codes of the tokens of document `j`.
pub open spec fn doc_codes(codes: Seq<i64>, lens: Seq<i64>, j: int) -> Seq<i64> {
    codes.subrange(rows_before(lens, j as nat), rows_before(lens, (j + 1) as nat))
}

/// The passages of the first `n` documents that have a token with code `c`, in increasing order.
/// Documents are numbered from `first` on.
pub open spec fn cell_pids(codes: Seq<i64>, lens: Seq<i64>, first: int, c: i64, n: nat) -> Seq<i64>
    decreases n,
{
    if n == 0 {
        Seq::empty()
    } else {
        let rest = cell_pids(codes, lens, first, c, (n - 1) as nat);
        if doc_codes(codes, lens, n - 1).contains(c) {
            rest.push((first + n - 1) as i64)
        } else {
            rest
        }
    }
}

/// For every token of the first `n` documents, the document it belongs to.
pub open spec fn token_owners(lens: Seq<i64>, n: nat) -> Seq<i64>
    decreases n,
{
    if n == 0 {
        Seq::empty()
    } else {
        token_owners(lens, (n - 1) as nat) + Seq::new(lens[n - 1] as nat, |t: int| (n - 1) as i64)
    }
}

/// The positions among the first `n` at which `c` stands, in increasing order.
pub open spec fn positions_of(codes: Seq<i64>, c: i64, n: nat) -> Seq<i64>
    decreases n,
{
    if n == 0 {
        Seq::empty()
    } else if codes[n - 1] == c {
        positions_of(codes, c, (n - 1) as nat).push((n - 1) as i64)
    } else {
        positions_of(codes, c, (n - 1) as nat)
    }
}

/// The owners of the given tokens.
pub open spec fn owners_of(owners: Seq<i64>, tokens: Seq<i64>) -> Seq<i64> {
    Seq::new(tokens.len(), |i: int| owners[tokens[i] as int])
}

/// The passage lists that token lists turn into: owners in place of tokens, in increasing order,
/// each once.
pub open spec fn passage_lists(tokens: Seq<Seq<i64>>, owners: Seq<i64>) -> Seq<Seq<i64>> {
    Seq::new(tokens.len(), |i: int| sorted_unique(owners_of(owners, tokens[i])))
}

/// The length of every list.
pub open spec fn list_lengths(lists: Seq<Seq<i64>>) -> Seq<i64> {
    Seq::new(lists.len(), |i: int| lists[i].len() as i64)
}

/// Number of cells that `codes` span when there are at least `min_cells`.
pub open spec fn cell_count(codes: Seq<i64>, min_cells: int, n: nat) -> int
    decreases n,
{
    if n == 0 {
        min_cells
    } else {
        let rest = cell_count(codes, min_cells, (n - 1) as nat);
        if codes[n - 1] + 1 > rest {
            codes[n - 1] + 1
        } else {
            rest
        }
    }
}

/// For every cell the tokens with its code.
pub open spec fn token_lists(codes: Seq<i64>, cells: int) -> Seq<Seq<i64>> {
    Seq::new(cells as nat, |c: int| positions_of(codes, c as i64, codes.len()))
}

/// No code is negative.
pub open spec fn are_codes(codes: Seq<i64>) -> bool {
    forall|i: int| 0 <= i < codes.len() ==> 0 <= (#[trigger] codes[i]) < i64::MAX
}

/// Every code lies below the number of cells.
pub proof fn lemma_cell_count(codes: Seq<i64>, min_cells: int, n: nat)
    requires
        n <= codes.len(),
        are_codes(codes),
        min_cells <= i64::MAX,
    ensures
        cell_count(codes, min_cells, n) <= i64::MAX,
        cell_count(codes, min_cells, n) >= min_cells,
        forall|i: int| 0 <= i < n ==> (#[trigger] codes[i]) < cell_count(codes, min_cells, n),
    decreases n,
{
    if n > 0 {
        lemma_cell_count(codes, min_cells, (n - 1) as nat);
        assert(codes[n - 1] < i64::MAX);
    }
}

proof fn lemma_owners_len(lens: Seq<i64>, n: nat)
    requires
        are_lengths(lens),
        n <= lens.len(),
    ensures
        token_owners(lens, n).len() == rows_before(lens, n),
    decreases n,
{
    if n > 0 {
        lemma_owners_len(lens, (n - 1) as nat);
        assert(0 <= lens[n - 1]);
    }
}

/// A token's owner is the document whose rows it lies in.
proof fn lemma_owner(lens: Seq<i64>, n: nat, e: int)
    requires
        are_lengths(lens),
        n <= lens.len() <= i64::MAX,
        0 <= e < rows_before(lens, n),
    ensures
        token_owners(lens, n).len() == rows_before(lens, n),
        0 <= token_owners(lens, n)[e] < n,
        rows_before(lens, token_owners(lens, n)[e] as nat) <= e < rows_before(
            lens,
            (token_owners(lens, n)[e] + 1) as nat,
        ),
    decreases n,
{
    lemma_owners_len(lens, n);
    lemma_owners_len(lens, (n - 1) as nat);
    assert(0 <= lens[n - 1]);
    if e < rows_before(lens, (n - 1) as nat) {
        lemma_owner(lens, (n - 1) as nat, e);
    }
}

/// For every token, the document it belongs to.
fn owner_list(lens: &Vec<i64>) -> (r: Vec<i64>)
    requires
        are_lengths(lens@),
        lens@.len() <= i64::MAX,
    ensures
        r@ == token_owners(lens@, lens@.len()),
{
    let mut out: Vec<i64> = Vec::new();
    let mut j: usize = 0;
    while j < lens.len()
        invariant
            j <= lens@.len() <= i64::MAX,
            are_lengths(lens@),
            out@ == token_owners(lens@, j as nat),
        decreases lens@.len() - j,
    {
        let l: i64 = lens[j];
        assert(0 <= lens@[j as int]);
        let ghost before = out@;
        let mut t: i64 = 0;
        assert(out@ =~= before + Seq::new(0, |x: int| j as i64));
        while t < l
            invariant
                0 <= t <= l,
                j < lens@.len() <= i64::MAX,
                out@ == before + Seq::new(t as nat, |x: int| j as i64),
            decreases l - t,
        {
            out.push(j as i64);
            assert(out@ =~= before + Seq::new((t + 1) as nat, |x: int| j as i64));
            t += 1;
        }
        assert(out@ =~= token_owners(lens@, (j + 1) as nat));
        j += 1;
    }
    out
}

/// Turns token lists into passage lists.
///
/// `ivf` holds token numbers, list after list, and `inverted_file_lengths` the length of every
/// list. A list may name several tokens of one document; the passage list names the document once,
/// and lists its passages in increasing order. What lies in `ivf` beyond the last list is left out.
pub fn optimize_ivf(
    ivf: &Vec<i64>,
    inverted_file_lengths: &Vec<i64>,
    doclens: &Vec<i64>,
) -> (r: (Vec<i64>, Vec<i64>))
    requires
        are_lengths(doclens@),
        doclens@.len() <= i64::MAX,
        are_lengths(inverted_file_lengths@),
        inverted_file_lengths@.len() > 0,
        total_rows(inverted_file_lengths@) <= ivf@.len() <= i64::MAX,
        total_rows(doclens@) >= 0,
        ids_in(ivf@, total_rows(doclens@) as nat),
    ensures
        r.0@ == passage_lists(
            split_lists(ivf@, inverted_file_lengths@, 1),
            token_owners(doclens@, doclens@.len()),
        ).flatten(),
        r.1@ == list_lengths(
            passage_lists(
                split_lists(ivf@, inverted_file_lengths@, 1),
                token_owners(doclens@, doclens@.len()),
            ),
        ),
{
    let owners = owner_list(doclens);
    let ghost tokens = split_lists(ivf@, inverted_file_lengths@, 1);
    let ghost lists = passage_lists(tokens, owners@);
    let mut flat: Vec<i64> = Vec::new();
    let mut lens: Vec<i64> = Vec::new();
    let mut at: usize = 0;
    let mut i: usize = 0;
    assert(lists.take(0) =~= Seq::<Seq<i64>>::empty());
    proof {
        lemma_owners_len(doclens@, doclens@.len());
    }
    while i < inverted_file_lengths.len()
        invariant
            i <= inverted_file_lengths@.len(),
            are_lengths(inverted_file_lengths@),
            total_rows(inverted_file_lengths@) <= ivf@.len() <= i64::MAX,
            ids_in(ivf@, owners@.len()),
            tokens == split_lists(ivf@, inverted_file_lengths@, 1),
            lists == passage_lists(tokens, owners@),
            at == rows_before(inverted_file_lengths@, i as nat),
            flat@ == lists.take(i as int).flatten(),
            lens@ == list_lengths(lists).take(i as int),
        decreases inverted_file_lengths@.len() - i,
    {
        let len: i64 = inverted_file_lengths[i];
        proof {
            assert(0 <= inverted_file_lengths@[i as int]);
            lemma_rows_monotonic(
                inverted_file_lengths@,
                (i + 1) as nat,
                inverted_file_lengths@.len(),
            );
        }
        let room: usize = ivf.len();
        assert(at + len <= room);
        let end: usize = at + (len as usize);
        let mut pids: Vec<i64> = Vec::new();
        let mut p: usize = at;
        let ghost segment = tokens[i as int];
        assert(segment =~= ivf@.subrange(at as int, end as int));
        while p < end
            invariant
                at <= p <= end <= ivf@.len(),
                ids_in(ivf@, owners@.len()),
                segment == ivf@.subrange(at as int, end as int),
                pids@ == owners_of(owners@, segment).take(p - at),
            decreases end - p,
        {
            let n: usize = owners.len();
            assert(0 <= ivf@[p as int] < n);
            pids.push(owners[ivf[p] as usize]);
            assert(segment[p - at] == ivf@[p as int]);
            assert(pids@ =~= owners_of(owners@, segment).take(p + 1 - at));
            p += 1;
        }
        assert(pids@ =~= owners_of(owners@, segment));
        let mut unique = sort_unique(&pids);
        proof {
            lemma_unique_shorter(pids@);
            assert(lists.take(i + 1) =~= lists.take(i as int).push(lists[i as int]));
            lists.take(i as int).lemma_flatten_push(lists[i as int]);
        }
        lens.push(unique.len() as i64);
        assert(lens@ =~= list_lengths(lists).take(i + 1));
        flat.append(&mut unique);
        at = end;
        i += 1;
    }
    assert(lists.take(lists.len() as int) =~= lists);
    assert(lens@ =~= list_lengths(lists));
    (flat, lens)
}

/// A list without repetitions is no longer than the list it was made from.
proof fn lemma_unique_shorter(s: Seq<i64>)
    requires
        increasing(sorted_unique(s)),
        same_members(sorted_unique(s), s),
    ensures
        sorted_unique(s).len() <= s.len(),
{
    let r = sorted_unique(s);
    assert(r.no_duplicates());
    r.unique_seq_to_set();
    s.lemma_cardinality_of_set();
    assert(r.to_set() =~= s.to_set()) by {
        assert forall|x: i64| r.to_set().contains(x) <==> s.to_set().contains(x) by {
            assert(r.contains(x) <==> s.contains(x));
        }
    }
}

/// The number of cells that `codes` span when there are at least `min_cells`.
fn count_cells(codes: &Vec<i64>, min_cells: i64) -> (r: i64)
    requires
        are_codes(codes@),
    ensures
        r == cell_count(codes@, min_cells as int, codes@.len()),
{
    let mut cells: i64 = min_cells;
    let mut i: usize = 0;
    while i < codes.len()
        invariant
            i <= codes@.len(),
            are_codes(codes@),
            cells == cell_count(codes@, min_cells as int, i as nat),
        decreases codes@.len() - i,
    {
        assert(0 <= codes@[i as int] < i64::MAX);
        if codes[i] + 1 > cells {
            cells = codes[i] + 1;
        }
        i += 1;
    }
    cells
}

/// As many empty lists as are asked for.
pub fn empty_lists(n: usize) -> (r: Vec<Vec<i64>>)
    ensures
        r@.len() == n,
        forall|i: int| 0 <= i < n ==> (#[trigger] r@[i])@ == Seq::<i64>::empty(),
{
    let mut out: Vec<Vec<i64>> = Vec::new();
    let mut i: usize = 0;
    while i < n
        invariant
            i <= n,
            out@.len() == i,
            forall|k: int| 0 <= k < i ==> (#[trigger] out@[k])@ == Seq::<i64>::empty(),
        decreases n - i,
    {
        out.push(Vec::new());
        i += 1;
    }
    out
}

/// Groups tokens by code: the tokens of every cell one after another, and the number of tokens of
/// every cell. There are at least `min_cells` cells.
pub fn group_tokens(codes: &Vec<i64>, min_cells: i64) -> (r: (Vec<i64>, Vec<i64>))
    requires
        are_codes(codes@),
        codes@.len() <= i64::MAX,
        0 <= min_cells,
        cell_count(codes@, min_cells as int, codes@.len()) <= usize::MAX,
    ensures
        r.0@ == token_lists(
            codes@,
            cell_count(codes@, min_cells as int, codes@.len()),
        ).flatten(),
        r.1@ == list_lengths(
            token_lists(codes@, cell_count(codes@, min_cells as int, codes@.len())),
        ),
{
    proof {
        lemma_cell_count(codes@, min_cells as int, codes@.len());
    }
    let cells: usize = count_cells(codes, min_cells) as usize;
    let mut lists: Vec<Vec<i64>> = empty_lists(cells);
    let mut e: usize = 0;
    while e < codes.len()
        invariant
            e <= codes@.len() <= i64::MAX,
            are_codes(codes@),
            lists@.len() == cells <= i64::MAX,
            forall|i: int| 0 <= i < codes@.len() ==> (#[trigger] codes@[i]) < cells,
            forall|c: int|
                0 <= c < cells ==> (#[trigger] lists@[c])@ == positions_of(
                    codes@,
                    c as i64,
                    e as nat,
                ),
        decreases codes@.len() - e,
    {
        assert(0 <= codes@[e as int] < cells);
        let c: usize = codes[e] as usize;
        let ghost before = lists@;
        lists[c].push(e as i64);
        assert forall|k: int| 0 <= k < cells implies (#[trigger] lists@[k])@ == positions_of(
            codes@,
            k as i64,
            (e + 1) as nat,
        ) by {
            assert(before[k]@ == positions_of(codes@, k as i64, e as nat));
        }
        e += 1;
    }
    let ghost want = token_lists(codes@, cells as int);
    assert forall|c: int| 0 <= c < cells implies (#[trigger] lists@[c])@ == want[c]
        && want[c].len() <= codes@.len() by {
        lemma_positions_len(codes@, c as i64, codes@.len());
    }
    join_lists(&lists, Ghost(want))
}

proof fn lemma_positions_len(codes: Seq<i64>, c: i64, n: nat)
    ensures
        positions_of(codes, c, n).len() <= n,
    decreases n,
{
    if n > 0 {
        lemma_positions_len(codes, c, (n - 1) as nat);
    }
}

/// Puts lists back to back.
fn join_lists(lists: &Vec<Vec<i64>>, Ghost(want): Ghost<Seq<Seq<i64>>>) -> (r: (Vec<i64>, Vec<i64>))
    requires
        want.len() == lists@.len(),
        forall|i: int|
            0 <= i < lists@.len() ==> (#[trigger] lists@[i])@ == want[i] && want[i].len()
                <= i64::MAX,
    ensures
        r.0@ == want.flatten(),
        r.1@ == list_lengths(want),
{
    let mut flat: Vec<i64> = Vec::new();
    let mut lens: Vec<i64> = Vec::new();
    let mut i: usize = 0;
    assert(want.take(0) =~= Seq::<Seq<i64>>::empty());
    while i < lists.len()
        invariant
            i <= lists@.len(),
            want.len() == lists@.len(),
            forall|k: int|
                0 <= k < lists@.len() ==> (#[trigger] lists@[k])@ == want[k] && want[k].len()
                    <= i64::MAX,
            flat@ == want.take(i as int).flatten(),
            lens@ == list_lengths(want).take(i as int),
        decreases lists@.len() - i,
    {
        append(&mut flat, &lists[i]);
        lens.push(lists[i].len() as i64);
        proof {
            assert(lists@[i as int]@ == want[i as int]);
            assert(want.take(i + 1) =~= want.take(i as int).push(want[i as int]));
            want.take(i as int).lemma_flatten_push(want[i as int]);
            assert(lens@ =~= list_lengths(want).take(i + 1));
        }
        i += 1;
    }
    assert(want.take(want.len() as int) =~= want);
    assert(lens@ =~= list_lengths(want));
    (flat, lens)
}

/// For every cell the passages that have a token with its code.
pub open spec fn cell_lists(codes: Seq<i64>, lens: Seq<i64>, first: int, cells: int) -> Seq<
    Seq<i64>,
> {
    Seq::new(cells as nat, |c: int| cell_pids(codes, lens, first, c as i64, lens.len()))
}

/// A passage is listed in a cell when, and only when, its document has a token with that code.
pub proof fn listed_iff_coded(
    codes: Seq<i64>,
    lens: Seq<i64>,
    first: int,
    c: i64,
    n: nat,
)
    requires
        i64::MIN <= first,
        first + n <= i64::MAX,
    ensures
        increasing(cell_pids(codes, lens, first, c, n)),
        cell_pids(codes, lens, first, c, n).len() <= n,
        forall|p: i64| #[trigger]
            cell_pids(codes, lens, first, c, n).contains(p) <==> first <= p < first + n
                && doc_codes(codes, lens, p - first).contains(c),
    decreases n,
{
    let all = cell_pids(codes, lens, first, c, n);
    if n > 0 {
        let m = (n - 1) as nat;
        listed_iff_coded(codes, lens, first, c, m);
        let rest = cell_pids(codes, lens, first, c, m);
        let last = (first + m) as i64;
        assert forall|p: i64| #[trigger] all.contains(p) <==> first <= p < first + n && doc_codes(
            codes,
            lens,
            p - first,
        ).contains(c) by {
            assert(rest.contains(p) <==> first <= p < first + m && doc_codes(
                codes,
                lens,
                p - first,
            ).contains(c));
            if doc_codes(codes, lens, m as int).contains(c) {
                assert(all == rest.push(last));
                assert(all[rest.len() as int] == last);
                if rest.contains(p) {
                    let i = choose|i: int| 0 <= i < rest.len() && rest[i] == p;
                    assert(all[i] == p);
                }
                if all.contains(p) && p != last {
                    let i = choose|i: int| 0 <= i < all.len() && all[i] == p;
                    assert(rest[i] == p);
                }
            }
        }
        assert(increasing(all)) by {
            assert forall|i: int, j: int| 0 <= i < j < all.len() implies #[trigger] all[i]
                < #[trigger] all[j] by {
                assert(rest.contains(rest[i]));
                assert(rest[i] < first + m);
            }
        }
    }
}

proof fn lemma_positions(codes: Seq<i64>, c: i64, n: nat)
    requires
        n <= codes.len() <= i64::MAX,
    ensures
        forall|e: i64| #[trigger]
            positions_of(codes, c, n).contains(e) <==> 0 <= e < n && codes[e as int] == c,
    decreases n,
{
    let all = positions_of(codes, c, n);
    if n > 0 {
        let m = (n - 1) as nat;
        lemma_positions(codes, c, m);
        let rest = positions_of(codes, c, m);
        assert forall|e: i64| #[trigger] all.contains(e) <==> 0 <= e < n && codes[e as int] == c by {
            assert(rest.contains(e) <==> 0 <= e < m && codes[e as int] == c);
            if codes[m as int] == c {
                assert(all == rest.push(m as i64));
                assert(all[rest.len() as int] == m as i64);
                if rest.contains(e) {
                    let i = choose|i: int| 0 <= i < rest.len() && rest[i] == e;
                    assert(all[i] == e);
                }
                if all.contains(e) && e != m as i64 {
                    let i = choose|i: int| 0 <= i < all.len() && all[i] == e;
                    assert(rest[i] == e);
                }
            }
        }
    }
}

/// The owners of the tokens of a cell, each once, are the passages of the cell.
proof fn lemma_owners_of_cell(codes: Seq<i64>, lens: Seq<i64>, c: i64)
    requires
        are_lengths(lens),
        lens.len() <= i64::MAX,
        codes.len() <= i64::MAX,
        total_rows(lens) == codes.len(),
    ensures
        sorted_unique(
            owners_of(token_owners(lens, lens.len()), positions_of(codes, c, codes.len())),
        ) == cell_pids(codes, lens, 0, c, lens.len()),
{
    let n = lens.len();
    let owners = token_owners(lens, n);
    let tokens = positions_of(codes, c, codes.len());
    let mapped = owners_of(owners, tokens);
    let cell = cell_pids(codes, lens, 0, c, n);
    listed_iff_coded(codes, lens, 0, c, n);
    lemma_positions(codes, c, codes.len());
    lemma_owners_len(lens, n);
    assert forall|p: i64| #[trigger] cell.contains(p) <==> mapped.contains(p) by {
        if cell.contains(p) {
            let d = doc_codes(codes, lens, p as int);
            let a = rows_before(lens, p as nat);
            let b = rows_before(lens, (p + 1) as nat);
            lemma_rows_monotonic(lens, p as nat, (p + 1) as nat);
            lemma_rows_monotonic(lens, (p + 1) as nat, n);
            let t = choose|t: int| 0 <= t < d.len() && d[t] == c;
            let e = (a + t) as i64;
            assert(codes[e as int] == c);
            assert(tokens.contains(e));
            let i = choose|i: int| 0 <= i < tokens.len() && tokens[i] == e;
            lemma_owner(lens, n, e as int);
            let o = owners[e as int];
            assert(o == p) by {
                if o < p {
                    lemma_rows_monotonic(lens, (o + 1) as nat, p as nat);
                }
                if o > p {
                    lemma_rows_monotonic(lens, (p + 1) as nat, o as nat);
                }
            }
            assert(mapped[i] == p);
        }
        if mapped.contains(p) {
            let i = choose|i: int| 0 <= i < mapped.len() && mapped[i] == p;
            let e = tokens[i];
            assert(tokens.contains(e));
            lemma_owner(lens, n, e as int);
            let a = rows_before(lens, p as nat);
            let b = rows_before(lens, (p + 1) as nat);
            lemma_rows_monotonic(lens, 0, p as nat);
            lemma_rows_monotonic(lens, (p + 1) as nat, n);
            let d = doc_codes(codes, lens, p as int);
            assert(d[e - a] == c);
            assert(d.contains(c));
        }
    }
    lemma_sorted_unique_is(mapped, cell);
}

/// Splitting what was put back to back by its own lengths gives the lists back.
pub proof fn lemma_split_joined(lists: Seq<Seq<i64>>, n: nat)
    requires
        n <= lists.len(),
        forall|i: int| 0 <= i < lists.len() ==> (#[trigger] lists[i]).len() <= i64::MAX,
    ensures
        rows_before(list_lengths(lists), n) == lists.take(n as int).flatten().len(),
        are_lengths(list_lengths(lists)),
    decreases n,
{
    if n == 0 {
        assert(lists.take(0) =~= Seq::<Seq<i64>>::empty());
    } else {
        let m = (n - 1) as nat;
        lemma_split_joined(lists, m);
        assert(lists.take(n as int) =~= lists.take(m as int).push(lists[m as int]));
        lists.take(m as int).lemma_flatten_push(lists[m as int]);
    }
}

/// Lists put back to back can be told apart again by their lengths.
pub proof fn lists_survive_joining(lists: Seq<Seq<i64>>)
    requires
        forall|i: int| 0 <= i < lists.len() ==> (#[trigger] lists[i]).len() <= i64::MAX,
    ensures
        are_lengths(list_lengths(lists)),
        total_rows(list_lengths(lists)) == lists.flatten().len(),
        split_lists(lists.flatten(), list_lengths(lists), 1) == lists,
{
    let lens = list_lengths(lists);
    let flat = lists.flatten();
    lemma_split_joined(lists, lists.len());
    assert(lists.take(lists.len() as int) =~= lists);
    let back = split_lists(flat, lens, 1);
    assert forall|i: int| 0 <= i < lists.len() implies #[trigger] back[i] == lists[i] by {
        lemma_split_joined(lists, i as nat);
        lemma_split_joined(lists, (i + 1) as nat);
        let head = lists.take(i);
        let tail = lists.skip(i + 1);
        assert(lists =~= head.push(lists[i]) + tail);
        vstd::seq_lib::lemma_flatten_concat(head.push(lists[i]), tail);
        head.lemma_flatten_push(lists[i]);
        assert(lists.take(i + 1) =~= head.push(lists[i]));
        let a = rows_before(lens, i as nat);
        let b = rows_before(lens, (i + 1) as nat);
        assert(flat =~= head.flatten() + lists[i] + tail.flatten());
        assert(back[i] == flat.subrange(a, b));
        assert(flat.subrange(a, b) =~= lists[i]);
    }
    assert(back =~= lists);
}

/// For every cell the documents that its tokens belong to, tokens being counted through all
/// documents.
pub open spec fn ivf_lists(codes: Seq<i64>, lens: Seq<i64>, cells: int) -> Seq<Seq<i64>> {
    passage_lists(token_lists(codes, cells), token_owners(lens, lens.len()))
}

/// Passages can be listed: every token has a code and belongs to a document, and there is a cell.
pub open spec fn is_listable(codes: Seq<i64>, lens: Seq<i64>, num_partitions: int) -> bool {
    &&& are_codes(codes)
    &&& codes.len() <= i64::MAX
    &&& are_lengths(lens)
    &&& lens.len() <= i64::MAX
    &&& codes.len() <= total_rows(lens)
    &&& 0 <= num_partitions
    &&& 0 < cell_count(codes, num_partitions, codes.len()) <= usize::MAX
}

/// Whether passages can be listed.
pub fn check_listable(codes: &Vec<i64>, doclens: &Vec<i64>, num_partitions: i64) -> (r: bool)
    ensures
        r == is_listable(codes@, doclens@, num_partitions as int),
        r ==> forall|i: int| 0 <= i < codes@.len() ==> 0 <= #[trigger] codes@[i] < i64::MAX,
        r ==> forall|i: int| 0 <= i < doclens@.len() ==> 0 <= #[trigger] doclens@[i],
        r ==> codes@.len() <= total_rows(doclens@) && 0 <= num_partitions,
        (forall|i: int| 0 <= i < codes@.len() ==> 0 <= #[trigger] codes@[i] < i64::MAX) && (
        forall|i: int| 0 <= i < doclens@.len() ==> 0 <= #[trigger] doclens@[i]) && codes@.len()
            <= total_rows(doclens@) && 0 <= num_partitions && 0 < cell_count(
            codes@,
            num_partitions as int,
            codes@.len(),
        ) <= usize::MAX && codes@.len() <= i64::MAX && doclens@.len() <= i64::MAX ==> r,
{
    let tokens: usize = codes.len();
    let docs: usize = doclens.len();
    if tokens as u64 > i64::MAX as u64 || docs as u64 > i64::MAX as u64 || num_partitions < 0 {
        return false;
    }
    let mut cells: i64 = num_partitions;
    let mut i: usize = 0;
    while i < codes.len()
        invariant
            i <= codes@.len(),
            0 <= cells,
            forall|j: int| 0 <= j < i ==> 0 <= (#[trigger] codes@[j]) < i64::MAX,
            cells == cell_count(codes@, num_partitions as int, i as nat),
        decreases codes@.len() - i,
    {
        let code: i64 = codes[i];
        if code < 0 || code == i64::MAX {
            return false;
        }
        if code + 1 > cells {
            cells = code + 1;
        }
        i += 1;
    }
    if cells == 0 || cells as u64 > usize::MAX as u64 {
        return false;
    }
    let mut known: i64 = 0;
    let mut d: usize = 0;
    while d < doclens.len()
        invariant
            d <= doclens@.len(),
            tokens == codes@.len() <= i64::MAX,
            forall|j: int| 0 <= j < d ==> 0 <= #[trigger] doclens@[j],
            0 <= known,
            known == rows_before(doclens@, d as nat) || (known >= tokens && rows_before(
                doclens@,
                d as nat,
            ) >= tokens),
        decreases doclens@.len() - d,
    {
        let len: i64 = doclens[d];
        if len < 0 {
            return false;
        }
        if known < tokens as i64 {
            if len > tokens as i64 - known {
                known = tokens as i64;
            } else {
                known = known + len;
            }
        }
        d += 1;
    }
    known >= tokens as i64
}

/// Builds the inverted file of a collection from the codes of all its tokens.
///
/// There is one list per cell, at least `num_partitions` of them; the list of a cell names, in
/// increasing order, the passages that have a token with its code. Documents behind the last token
/// are in no list.
pub fn build_ivf(codes: &Vec<i64>, doclens: &Vec<i64>, num_partitions: i64) -> (r: (
    Vec<i64>,
    Vec<i64>,
))
    requires
        is_listable(codes@, doclens@, num_partitions as int),
    ensures
        ({
            let cells = cell_count(codes@, num_partitions as int, codes@.len());
            let lists = ivf_lists(codes@, doclens@, cells);
            &&& r.0@ == lists.flatten()
            &&& r.1@ == list_lengths(lists)
            &&& codes@.len() == total_rows(doclens@) ==> lists == cell_lists(
                codes@,
                doclens@,
                0,
                cells,
            )
        }),
{
    let (tokens, counts) = group_tokens(codes, num_partitions);
    proof {
        let cells = cell_count(codes@, num_partitions as int, codes@.len());
        let lists = token_lists(codes@, cells);
        lemma_cell_count(codes@, num_partitions as int, codes@.len());
        assert forall|i: int| 0 <= i < lists.len() implies (#[trigger] lists[i]).len()
            <= i64::MAX by {
            lemma_positions_len(codes@, i as i64, codes@.len());
        }
        lists_survive_joining(lists);
        lemma_token_ids(codes@, cells, cells as nat);
        assert(lists.take(cells) =~= lists);
        lemma_tokens_once(codes@, cells);
        assert forall|i: int| 0 <= i < tokens@.len() implies 0 <= #[trigger] tokens@[i]
            < total_rows(doclens@) by {
            assert(0 <= lists.flatten()[i] < codes@.len());
        }
        if codes@.len() == total_rows(doclens@) {
            let owners = token_owners(doclens@, doclens@.len());
            let want = cell_lists(codes@, doclens@, 0, cells);
            assert(passage_lists(lists, owners) =~= want) by {
                assert forall|c: int| 0 <= c < cells implies #[trigger] passage_lists(
                    lists,
                    owners,
                )[c] == want[c] by {
                    lemma_owners_of_cell(codes@, doclens@, c as i64);
                }
            }
        }
    }
    optimize_ivf(&tokens, &counts, doclens)
}

/// Every entry of the token lists is a token.
proof fn lemma_token_ids(codes: Seq<i64>, cells: int, n: nat)
    requires
        codes.len() <= i64::MAX,
        n <= cells,
    ensures
        ids_in(token_lists(codes, cells).take(n as int).flatten(), codes.len()),
    decreases n,
{
    let lists = token_lists(codes, cells);
    if n == 0 {
        assert(lists.take(0) =~= Seq::<Seq<i64>>::empty());
    } else {
        let m = (n - 1) as nat;
        lemma_token_ids(codes, cells, m);
        assert(lists.take(n as int) =~= lists.take(m as int).push(lists[m as int]));
        lists.take(m as int).lemma_flatten_push(lists[m as int]);
        lemma_positions(codes, m as i64, codes.len());
        let flat = lists.take(n as int).flatten();
        let front = lists.take(m as int).flatten();
        assert forall|i: int| 0 <= i < flat.len() implies 0 <= #[trigger] flat[i] < codes.len() by {
            if i < front.len() {
                assert(flat[i] == front[i]);
            } else {
                let e = lists[m as int][i - front.len()];
                assert(lists[m as int].contains(e));
            }
        }
    }
}

/// The token lists together are no longer than the codes.
proof fn lemma_tokens_once(codes: Seq<i64>, cells: int)
    requires
        are_codes(codes),
        codes.len() <= i64::MAX,
        0 <= cells <= i64::MAX,
    ensures
        token_lists(codes, cells).flatten().len() <= codes.len(),
{
    lemma_tokens_once_upto(codes, cells, codes.len());
    let a = token_lists(codes, cells);
    let b = partial_lists(codes, cells, codes.len());
    assert(a =~= b);
}

spec fn partial_lists(codes: Seq<i64>, cells: int, n: nat) -> Seq<Seq<i64>> {
    Seq::new(cells as nat, |c: int| positions_of(codes, c as i64, n))
}

proof fn lemma_tokens_once_upto(codes: Seq<i64>, cells: int, n: nat)
    requires
        n <= codes.len() <= i64::MAX,
        0 <= cells <= i64::MAX,
    ensures
        partial_lists(codes, cells, n).flatten().len() <= n,
    decreases n,
{
    if n == 0 {
        lemma_all_empty(partial_lists(codes, cells, 0));
    } else {
        let m = (n - 1) as nat;
        lemma_tokens_once_upto(codes, cells, m);
        let a = partial_lists(codes, cells, m);
        let b = partial_lists(codes, cells, n);
        let c = codes[m as int] as int;
        if 0 <= c < cells {
            lemma_one_longer(a, b, c);
        } else {
            assert(a =~= b);
        }
    }
}

proof fn lemma_all_empty(lists: Seq<Seq<i64>>)
    requires
        forall|i: int| 0 <= i < lists.len() ==> (#[trigger] lists[i]).len() == 0,
    ensures
        lists.flatten().len() == 0,
    decreases lists.len(),
{
    if lists.len() > 0 {
        assert(lists[0].len() == 0);
        assert forall|i: int| 0 <= i < lists.drop_first().len() implies (
        #[trigger] lists.drop_first()[i]).len() == 0 by {
            assert(lists.drop_first()[i] == lists[i + 1]);
        }
        lemma_all_empty(lists.drop_first());
    }
}

/// One list one longer makes the whole one longer.
proof fn lemma_one_longer(a: Seq<Seq<i64>>, b: Seq<Seq<i64>>, c: int)
    requires
        a.len() == b.len(),
        0 <= c < a.len(),
        b[c].len() == a[c].len() + 1,
        forall|i: int| 0 <= i < a.len() && i != c ==> a[i] == b[i],
    ensures
        b.flatten().len() == a.flatten().len() + 1,
{
    let head = a.take(c);
    let tail = a.skip(c + 1);
    assert(a =~= head.push(a[c]) + tail);
    assert(b =~= head.push(b[c]) + tail);
    vstd::seq_lib::lemma_flatten_concat(head.push(a[c]), tail);
    vstd::seq_lib::lemma_flatten_concat(head.push(b[c]), tail);
    head.lemma_flatten_push(a[c]);
    head.lemma_flatten_push(b[c]);
}

/// There are as many cells as are asked for and as the codes take, and no more.
pub proof fn cells_are_as_many_as_needed(codes: Seq<i64>, min_cells: int, n: nat)
    requires
        n <= codes.len(),
    ensures
        cell_count(codes, min_cells, n) >= min_cells,
        forall|i: int| 0 <= i < n ==> (#[trigger] codes[i]) < cell_count(codes, min_cells, n),
        cell_count(codes, min_cells, n) == min_cells || exists|i: int|
            0 <= i < n && (#[trigger] codes[i]) + 1 == cell_count(codes, min_cells, n),
    decreases n,
{
    if n > 0 {
        cells_are_as_many_as_needed(codes, min_cells, (n - 1) as nat);
        let rest = cell_count(codes, min_cells, (n - 1) as nat);
        if codes[n - 1] + 1 <= rest && rest != min_cells {
            let i = choose|i: int| 0 <= i < n - 1 && (#[trigger] codes[i]) + 1 == rest;
            assert(codes[i] + 1 == cell_count(codes, min_cells, n));
        }
    }
}

proof fn lemma_positions_increase(codes: Seq<i64>, c: i64, n: nat)
    requires
        n <= codes.len() <= i64::MAX,
    ensures
        increasing(positions_of(codes, c, n)),
    decreases n,
{
    if n > 0 {
        let m = (n - 1) as nat;
        lemma_positions_increase(codes, c, m);
        lemma_positions(codes, c, m);
        let rest = positions_of(codes, c, m);
        assert forall|i: int| 0 <= i < rest.len() implies (#[trigger] rest[i]) < m by {
            assert(rest.contains(rest[i]));
        }
    }
}

/// The tokens of a cell are those with its code, each once and in increasing order.
pub proof fn tokens_are_grouped_by_code(codes: Seq<i64>, cells: int, c: int)
    requires
        codes.len() <= i64::MAX,
        0 <= c < cells <= i64::MAX,
    ensures
        token_lists(codes, cells).len() == cells,
        forall|i: int, j: int|
            0 <= i < j < token_lists(codes, cells)[c].len() ==> #[trigger] token_lists(
                codes,
                cells,
            )[c][i] < #[trigger] token_lists(codes, cells)[c][j],
        forall|e: i64| #[trigger]
            token_lists(codes, cells)[c].contains(e) <==> 0 <= e < codes.len() && codes[e as int]
                == c,
{
    lemma_positions_increase(codes, c as i64, codes.len());
    lemma_positions(codes, c as i64, codes.len());
}

/// Every token belongs to the document in whose rows it lies.
pub proof fn owners_hold_their_tokens(lens: Seq<i64>, e: int, d: int)
    requires
        are_lengths(lens),
        lens.len() <= i64::MAX,
        0 <= e < total_rows(lens),
        0 <= d < lens.len(),
    ensures
        token_owners(lens, lens.len()).len() == total_rows(lens),
        token_owners(lens, lens.len())[e] == d <==> rows_before(lens, d as nat) <= e < rows_before(
            lens,
            (d + 1) as nat,
        ),
{
    lemma_owner(lens, lens.len(), e);
    let o = token_owners(lens, lens.len())[e] as int;
    if o < d {
        lemma_rows_monotonic(lens, (o + 1) as nat, d as nat);
    }
    if d < o {
        lemma_rows_monotonic(lens, (d + 1) as nat, o as nat);
    }
}

/// The length of every list is the number of its entries.
pub proof fn lengths_count_the_entries(lists: Seq<Seq<i64>>, i: int)
    requires
        0 <= i < lists.len(),
        lists[i].len() <= i64::MAX,
    ensures
        list_lengths(lists).len() == lists.len(),
        list_lengths(lists)[i] == lists[i].len(),
{
}

/// A passage list names the owners of the tokens of its token list, each once and in increasing
/// order: there is one for every token list, a document is in it when, and only when, one of the
/// tokens lies in the rows of the document.
pub proof fn passages_own_the_tokens(tokens: Seq<Seq<i64>>, lens: Seq<i64>, i: int, p: i64)
    requires
        are_lengths(lens),
        lens.len() <= i64::MAX,
        0 <= i < tokens.len(),
        forall|x: int| 0 <= x < tokens[i].len() ==> 0 <= #[trigger] tokens[i][x] < total_rows(lens),
    ensures
        passage_lists(tokens, token_owners(lens, lens.len())).len() == tokens.len(),
        forall|a: int, b: int|
            0 <= a < b < passage_lists(tokens, token_owners(lens, lens.len()))[i].len()
                ==> #[trigger] passage_lists(tokens, token_owners(lens, lens.len()))[i][a]
                < #[trigger] passage_lists(tokens, token_owners(lens, lens.len()))[i][b],
        passage_lists(tokens, token_owners(lens, lens.len()))[i].contains(p) <==> 0 <= p < lens.len()
            && exists|x: int|
            0 <= x < tokens[i].len() && rows_before(lens, p as nat) <= #[trigger] tokens[i][x]
                < rows_before(lens, (p + 1) as nat),
{
    let owners = token_owners(lens, lens.len());
    let list = passage_lists(tokens, owners)[i];
    let mapped = owners_of(owners, tokens[i]);
    sorted_lists_hold_the_values(mapped);
    assert(list.contains(p) <==> mapped.contains(p));
    if mapped.contains(p) {
        let x = mapped.index_of(p);
        let e = tokens[i][x];
        lemma_owner(lens, lens.len(), e as int);
        assert(mapped[x] == owners[e as int]);
    }
    if 0 <= p < lens.len() && exists|x: int|
        0 <= x < tokens[i].len() && rows_before(lens, p as nat) <= #[trigger] tokens[i][x]
            < rows_before(lens, (p + 1) as nat) {
        let x = choose|x: int|
            0 <= x < tokens[i].len() && rows_before(lens, p as nat) <= #[trigger] tokens[i][x]
                < rows_before(lens, (p + 1) as nat);
        owners_hold_their_tokens(lens, tokens[i][x] as int, p as int);
        assert(mapped[x] == p);
    }
}

/// The codes of a document are those of its rows.
pub proof fn documents_have_their_own_codes(codes: Seq<i64>, lens: Seq<i64>, j: int, x: int)
    requires
        are_lengths(lens),
        total_rows(lens) <= codes.len(),
        0 <= j < lens.len(),
        0 <= x < lens[j],
    ensures
        doc_codes(codes, lens, j).len() == lens[j],
        doc_codes(codes, lens, j)[x] == codes[lens.take(j).fold_left(
            0int,
            |sum: int, l: i64| sum + l,
        ) + x],
{
    rows_are_added_up(lens, j as nat);
    lemma_rows_monotonic(lens, j as nat, (j + 1) as nat);
    lemma_rows_monotonic(lens, (j + 1) as nat, lens.len());
}

/// The list of a cell names the documents with a token of its code, each once and in increasing
/// order.
pub proof fn cells_list_their_documents(
    codes: Seq<i64>,
    lens: Seq<i64>,
    first: int,
    cells: int,
    c: int,
    p: i64,
)
    requires
        are_lengths(lens),
        total_rows(lens) <= codes.len(),
        i64::MIN <= first,
        first + lens.len() <= i64::MAX,
        0 <= c < cells <= i64::MAX,
    ensures
        cell_lists(codes, lens, first, cells).len() == cells,
        forall|i: int, j: int|
            0 <= i < j < cell_lists(codes, lens, first, cells)[c].len() ==> #[trigger] cell_lists(
                codes,
                lens,
                first,
                cells,
            )[c][i] < #[trigger] cell_lists(codes, lens, first, cells)[c][j],
        cell_lists(codes, lens, first, cells)[c].contains(p) <==> first <= p < first + lens.len()
            && exists|e: int|
            rows_before(lens, (p - first) as nat) <= e < rows_before(lens, (p - first + 1) as nat)
                && #[trigger] codes[e] == c,
{
    listed_iff_coded(codes, lens, first, c as i64, lens.len());
    let list = cell_lists(codes, lens, first, cells)[c];
    assert(list == cell_pids(codes, lens, first, c as i64, lens.len()));
    if first <= p < first + lens.len() {
        let j = p - first;
        lemma_rows_monotonic(lens, j as nat, (j + 1) as nat);
        lemma_rows_monotonic(lens, (j + 1) as nat, lens.len());
        let a = rows_before(lens, j as nat);
        let d = doc_codes(codes, lens, j);
        if d.contains(c as i64) {
            let t = d.index_of(c as i64);
            assert(codes[a + t] == c);
        }
        if exists|e: int| a <= e < rows_before(lens, (j + 1) as nat) && #[trigger] codes[e] == c {
            let e = choose|e: int|
                a <= e < rows_before(lens, (j + 1) as nat) && #[trigger] codes[e] == c;
            assert(d[e - a] == c);
        }
    }
}

/// The inverted file of a collection names in the list of a cell the documents with a token of its
/// code, each once and in increasing order.
pub proof fn the_inverted_file_lists_the_documents(
    codes: Seq<i64>,
    lens: Seq<i64>,
    cells: int,
    c: int,
    p: i64,
)
    requires
        are_lengths(lens),
        lens.len() <= i64::MAX,
        codes.len() <= total_rows(lens),
        codes.len() <= i64::MAX,
        0 <= c < cells <= i64::MAX,
    ensures
        ivf_lists(codes, lens, cells).len() == cells,
        forall|i: int, j: int|
            0 <= i < j < ivf_lists(codes, lens, cells)[c].len() ==> #[trigger] ivf_lists(
                codes,
                lens,
                cells,
            )[c][i] < #[trigger] ivf_lists(codes, lens, cells)[c][j],
        ivf_lists(codes, lens, cells)[c].contains(p) <==> 0 <= p < lens.len() && exists|e: int|
            rows_before(lens, p as nat) <= e < rows_before(lens, (p + 1) as nat) && e < codes.len()
                && #[trigger] codes[e] == c,
{
    let tokens = token_lists(codes, cells);
    tokens_are_grouped_by_code(codes, cells, c);
    assert forall|x: int| 0 <= x < tokens[c].len() implies 0 <= #[trigger] tokens[c][x]
        < total_rows(lens) by {
        assert(tokens[c].contains(tokens[c][x]));
    }
    passages_own_the_tokens(tokens, lens, c, p);
    if 0 <= p < lens.len() {
        let a = rows_before(lens, p as nat);
        let b = rows_before(lens, (p + 1) as nat);
        lemma_rows_monotonic(lens, 0, p as nat);
        if exists|x: int| 0 <= x < tokens[c].len() && a <= #[trigger] tokens[c][x] < b {
            let x = choose|x: int| 0 <= x < tokens[c].len() && a <= #[trigger] tokens[c][x] < b;
            let e = tokens[c][x];
            assert(tokens[c].contains(e));
            assert(codes[e as int] == c);
        }
        if exists|e: int| a <= e < b && e < codes.len() && #[trigger] codes[e] == c {
            let e = choose|e: int| a <= e < b && e < codes.len() && #[trigger] codes[e] == c;
            assert(tokens[c].contains(e as i64));
            let x = tokens[c].index_of(e as i64);
            assert(a <= tokens[c][x] < b);
        }
    }
}

/// Read back by its lengths, the inverted file that is built names in the list of a cell the
/// documents with a token of its code, and no others. There is a list for every code, and as many
/// as are asked for.
pub proof fn built_files_list_the_documents(
    codes: &Vec<i64>,
    doclens: &Vec<i64>,
    num_partitions: i64,
    r: (Vec<i64>, Vec<i64>),
    c: int,
    p: i64,
)
    requires
        call_ensures(build_ivf, (codes, doclens, num_partitions), r),
        is_listable(codes@, doclens@, num_partitions as int),
        0 <= c < r.1@.len(),
    ensures
        r.1@.len() >= num_partitions,
        forall|e: int| 0 <= e < codes@.len() ==> (#[trigger] codes@[e]) < r.1@.len(),
        r.1@.len() == num_partitions || codes@.contains((r.1@.len() - 1) as i64),
        split_lists(r.0@, r.1@, 1)[c].no_duplicates(),
        split_lists(r.0@, r.1@, 1)[c].contains(p) <==> 0 <= p < doclens@.len() && exists|e: int|
            rows_before(doclens@, p as nat) <= e < rows_before(doclens@, (p + 1) as nat) && e
                < codes@.len() && #[trigger] codes@[e] == c,
{
    let cells = cell_count(codes@, num_partitions as int, codes@.len());
    let lists = ivf_lists(codes@, doclens@, cells);
    cells_are_as_many_as_needed(codes@, num_partitions as int, codes@.len());
    lemma_cell_count(codes@, num_partitions as int, codes@.len());
    the_inverted_file_lists_the_documents(codes@, doclens@, cells, c, p);
    assert forall|i: int| 0 <= i < lists.len() implies (#[trigger] lists[i]).len() <= i64::MAX by {
        the_inverted_file_lists_the_documents(codes@, doclens@, cells, i, 0);
        lemma_few_passages(codes@, doclens@, cells, i);
    }
    lists_survive_joining(lists);
    if cells != num_partitions {
        let e = choose|e: int| 0 <= e < codes@.len() && (#[trigger] codes@[e]) + 1 == cells;
        assert(codes@[e] == (r.1@.len() - 1) as i64);
    }
}

proof fn lemma_few_passages(codes: Seq<i64>, lens: Seq<i64>, cells: int, c: int)
    requires
        are_lengths(lens),
        lens.len() <= i64::MAX,
        codes.len() <= total_rows(lens),
        codes.len() <= i64::MAX,
        0 <= c < cells <= i64::MAX,
    ensures
        ivf_lists(codes, lens, cells)[c].len() <= lens.len(),
{
    let list = ivf_lists(codes, lens, cells)[c];
    the_inverted_file_lists_the_documents(codes, lens, cells, c, 0);
    if list.len() > lens.len() {
        lemma_increasing_from(list, lens.len() as int);
        let p = list[lens.len() as int];
        assert(list.contains(p));
        the_inverted_file_lists_the_documents(codes, lens, cells, c, p);
        let q = list[0];
        assert(list.contains(q));
        the_inverted_file_lists_the_documents(codes, lens, cells, c, q);
    }
}

proof fn lemma_increasing_from(list: Seq<i64>, n: int)
    requires
        0 <= n < list.len(),
        forall|i: int, j: int| 0 <= i < j < list.len() ==> #[trigger] list[i] < #[trigger] list[j],
    ensures
        list[n] >= list[0] + n,
    decreases n,
{
    if n > 0 {
        lemma_increasing_from(list, n - 1);
        assert(list[n - 1] < list[n]);
    }
}

} // verus!
