//! Growing an inverted file by the passages of new documents.

use vstd::prelude::*;

use crate::ivf::{
    cell_lists, cell_pids, cells_list_their_documents, doc_codes, empty_lists, list_lengths,
    listed_iff_coded,
};
use crate::order::increasing;
use crate::strided::{
    append, are_lengths, lemma_rows_agree, lemma_rows_monotonic, rows_before, total_rows,
    StridedTensor,
};

verus! {

/// The contents of every list.
pub open spec fn list_views(lists: Seq<Vec<i64>>) -> Seq<Seq<i64>> {
    Seq::new(lists.len(), |i: int| lists[i]@)
}

/// The list of cell `c`; empty for a cell beyond the lists.
pub open spec fn list_of(lists: Seq<Seq<i64>>, c: int) -> Seq<i64> {
    if c < lists.len() {
        lists[c]
    } else {
        Seq::empty()
    }
}

/// Every cell's old passages followed by its new ones. There are as many cells as `fresh` has lists.
pub open spec fn merged_lists(old_lists: Seq<Seq<i64>>, fresh: Seq<Seq<i64>>) -> Seq<Seq<i64>> {
    Seq::new(fresh.len(), |c: int| list_of(old_lists, c) + fresh[c])
}

/// Every cell's old length plus the number of its new passages.
pub open spec fn merged_lengths(old_lens: Seq<i64>, fresh: Seq<Seq<i64>>) -> Seq<i64> {
    Seq::new(
        fresh.len(),
        |c: int|
            ((if c < old_lens.len() {
                old_lens[c] as int
            } else {
                0
            }) + fresh[c].len()) as i64,
    )
}

/// Document `j` has code `c` among its first `t` tokens.
spec fn seen(codes: Seq<i64>, lens: Seq<i64>, j: int, t: int, c: i64) -> bool {
    codes.subrange(rows_before(lens, j as nat), rows_before(lens, j as nat) + t).contains(c)
}

/// The passages of cell `c` once `j` documents and `t` tokens of the next are done.
spec fn cell_so_far(codes: Seq<i64>, lens: Seq<i64>, first: int, c: i64, j: int, t: int) -> Seq<
    i64,
> {
    let done = cell_pids(codes, lens, first, c, j as nat);
    if seen(codes, lens, j, t, c) {
        done.push((first + j) as i64)
    } else {
        done
    }
}

proof fn lemma_seen_next(codes: Seq<i64>, lens: Seq<i64>, j: int, t: int, c: i64)
    requires
        0 <= rows_before(lens, j as nat),
        0 <= t,
        rows_before(lens, j as nat) + t < codes.len(),
    ensures
        seen(codes, lens, j, t + 1, c) <==> seen(codes, lens, j, t, c)
            || codes[rows_before(lens, j as nat) + t] == c,
{
    let a = rows_before(lens, j as nat);
    let short = codes.subrange(a, a + t);
    let long = codes.subrange(a, a + t + 1);
    assert(long =~= short.push(codes[a + t]));
    assert(long[t] == codes[a + t]);
    if short.contains(c) {
        let i = choose|i: int| 0 <= i < short.len() && short[i] == c;
        assert(long[i] == c);
    }
    if long.contains(c) && codes[a + t] != c {
        let i = choose|i: int| 0 <= i < long.len() && long[i] == c;
        assert(short[i] == c);
    }
}

/// For every cell the passages of the new documents that have a token with its code. The documents
/// are numbered from `first_pid` on; codes outside `0..num_partitions` are passed over.
pub fn partition_pids(
    codes: &Vec<i64>,
    doclens: &Vec<i64>,
    first_pid: i64,
    num_partitions: i64,
) -> (r: Vec<Vec<i64>>)
    requires
        are_lengths(doclens@),
        total_rows(doclens@) <= codes@.len(),
        first_pid + doclens@.len() <= i64::MAX,
        num_partitions <= usize::MAX,
    ensures
        list_views(r@) == cell_lists(
            codes@,
            doclens@,
            first_pid as int,
            if num_partitions > 0 {
                num_partitions as int
            } else {
                0
            },
        ),
        num_partitions <= 0 ==> r@.len() == 0,
        num_partitions > 0 ==> r@.len() == num_partitions,
        forall|c: int, i: int, j: int|
            0 <= c < r@.len() && 0 <= i < j < r@[c]@.len() ==> #[trigger] r@[c]@[i]
                < #[trigger] r@[c]@[j],
        forall|c: int, p: i64|
            0 <= c < r@.len() ==> (#[trigger] r@[c]@.contains(p) <==> first_pid <= p < first_pid
                + doclens@.len() && exists|e: int|
                rows_before(doclens@, (p - first_pid) as nat) <= e < rows_before(
                    doclens@,
                    (p - first_pid + 1) as nat,
                ) && #[trigger] codes@[e] == c),
{
    let cells: usize = if num_partitions > 0 {
        num_partitions as usize
    } else {
        0
    };
    let mut lists: Vec<Vec<i64>> = empty_lists(cells);
    let mut at: usize = 0;
    let mut pid: i64 = first_pid;
    let mut j: usize = 0;
    while j < doclens.len()
        invariant
            pid == first_pid + j,
            j <= doclens@.len(),
            cells <= i64::MAX,
            are_lengths(doclens@),
            total_rows(doclens@) <= codes@.len(),
            first_pid + doclens@.len() <= i64::MAX,
            at == rows_before(doclens@, j as nat),
            lists@.len() == cells,
            forall|c: int|
                0 <= c < cells ==> (#[trigger] lists@[c])@ == cell_pids(
                    codes@,
                    doclens@,
                    first_pid as int,
                    c as i64,
                    j as nat,
                ),
        decreases doclens@.len() - j,
    {
        let len: i64 = doclens[j];
        let ghost start = at as int;
        proof {
            assert(0 <= doclens@[j as int]);
            lemma_rows_monotonic(doclens@, (j + 1) as nat, doclens@.len());
            assert forall|c: int| 0 <= c < cells implies (#[trigger] lists@[c])@ == cell_so_far(
                codes@,
                doclens@,
                first_pid as int,
                c as i64,
                j as int,
                0,
            ) by {
                assert(codes@.subrange(start, start) =~= Seq::<i64>::empty());
            }
        }
        let mut t: i64 = 0;
        while t < len
            invariant
                0 <= t <= len,
                j < doclens@.len(),
                cells <= i64::MAX,
                start == rows_before(doclens@, j as nat),
                0 <= start,
                start + len <= codes.len(),
                at == start + t,
                pid == first_pid + j,
                first_pid + doclens@.len() <= i64::MAX,
                lists@.len() == cells,
                forall|c: int|
                    0 <= c < cells ==> (#[trigger] lists@[c])@ == cell_so_far(
                        codes@,
                        doclens@,
                        first_pid as int,
                        c as i64,
                        j as int,
                        t as int,
                    ),
            decreases len - t,
        {
            let code: i64 = codes[at];
            let ghost before = lists@;
            if code >= 0 && (code as u64) < (cells as u64) {
                let c: usize = code as usize;
                let n: usize = lists[c].len();
                proof {
                    assert(before[c as int]@ == cell_so_far(
                        codes@,
                        doclens@,
                        first_pid as int,
                        code,
                        j as int,
                        t as int,
                    ));
                    listed_iff_coded(codes@, doclens@, first_pid as int, code, j as nat);
                    let done = cell_pids(codes@, doclens@, first_pid as int, code, j as nat);
                    if done.len() > 0 {
                        assert(done.contains(done.last()));
                    }
                }
                if n == 0 || lists[c][n - 1] != pid {
                    lists[c].push(pid);
                }
            }
            proof {
                assert forall|c: int| 0 <= c < cells implies (#[trigger] lists@[c])@ == cell_so_far(
                    codes@,
                    doclens@,
                    first_pid as int,
                    c as i64,
                    j as int,
                    t + 1,
                ) by {
                    lemma_seen_next(codes@, doclens@, j as int, t as int, c as i64);
                    assert(before[c]@ == cell_so_far(
                        codes@,
                        doclens@,
                        first_pid as int,
                        c as i64,
                        j as int,
                        t as int,
                    ));
                }
            }
            at += 1;
            t += 1;
        }
        pid += 1;
        j += 1;
    }
    let ghost want = cell_lists(codes@, doclens@, first_pid as int, cells as int);
    assert(list_views(lists@) =~= want);
    proof {
        assert forall|c: int, i: int, j: int|
            0 <= c < lists@.len() && 0 <= i < j < lists@[c]@.len() implies #[trigger] lists@[c]@[i]
            < #[trigger] lists@[c]@[j] by {
            cells_list_their_documents(
                codes@,
                doclens@,
                first_pid as int,
                cells as int,
                c,
                lists@[c]@[i],
            );
            assert(lists@[c]@ == want[c]);
            assert(want[c][i] < want[c][j]);
        }
        assert forall|c: int, p: i64| 0 <= c < lists@.len() implies (
        #[trigger] lists@[c]@.contains(p) <==> first_pid <= p < first_pid + doclens@.len()
            && exists|e: int|
            rows_before(doclens@, (p - first_pid) as nat) <= e < rows_before(
                doclens@,
                (p - first_pid + 1) as nat,
            ) && #[trigger] codes@[e] == c) by {
            cells_list_their_documents(
                codes@,
                doclens@,
                first_pid as int,
                cells as int,
                c,
                p,
            );
            assert(lists@[c]@ == want[c]);
        }
    }
    lists
}

/// Adds new passages to an inverted file: the lists of all cells back to back, and their lengths.
///
/// There is one cell per entry of `fresh`. The old file may cover fewer cells; old lists beyond
/// the cells are dropped.
pub fn merge_ivf(old_ivf: &StridedTensor<i64>, fresh: &Vec<Vec<i64>>) -> (r: (Vec<i64>, Vec<i64>))
    requires
        old_ivf.wf(),
        forall|c: int|
            0 <= c < fresh@.len() ==> (if c < old_ivf.row_counts().len() {
                old_ivf.row_counts()[c] as int
            } else {
                0
            }) + (#[trigger] fresh@[c])@.len() <= i64::MAX,
    ensures
        r.0@ == merged_lists(old_ivf@, list_views(fresh@)).flatten(),
        r.1@ == merged_lengths(old_ivf.row_counts(), list_views(fresh@)),
        r.1@.len() == fresh@.len(),
        forall|c: int|
            0 <= c < fresh@.len() && c < old_ivf@.len() ==> #[trigger] r.1@[c]
                == old_ivf.row_counts()[c] + fresh@[c]@.len(),
        forall|c: int|
            old_ivf@.len() <= c < fresh@.len() ==> #[trigger] r.1@[c] == fresh@[c]@.len(),
        r.0@ == Seq::new(
            fresh@.len(),
            |c: int|
                if c < old_ivf@.len() {
                    old_ivf@[c] + fresh@[c]@
                } else {
                    fresh@[c]@
                },
        ).flatten(),
{
    let ghost news = list_views(fresh@);
    let ghost want = merged_lists(old_ivf@, news);
    let old_cells: usize = old_ivf.len();
    let mut flat: Vec<i64> = Vec::new();
    let mut lens: Vec<i64> = Vec::new();
    let mut c: usize = 0;
    assert(want.take(0) =~= Seq::<Seq<i64>>::empty());
    while c < fresh.len()
        invariant
            c <= fresh@.len(),
            old_ivf.wf(),
            old_cells == old_ivf@.len(),
            old_cells == old_ivf.row_counts().len(),
            news == list_views(fresh@),
            want == merged_lists(old_ivf@, news),
            forall|i: int|
                0 <= i < fresh@.len() ==> (if i < old_ivf.row_counts().len() {
                    old_ivf.row_counts()[i] as int
                } else {
                    0
                }) + (#[trigger] fresh@[i])@.len() <= i64::MAX,
            flat@ == want.take(c as int).flatten(),
            lens@ == merged_lengths(old_ivf.row_counts(), news).take(c as int),
        decreases fresh@.len() - c,
    {
        let ghost before = flat@;
        proof {
            old_ivf.lemma_parts();
        }
        let mut len: i64 = 0;
        if c < old_cells {
            old_ivf.copy_lists(c, c + 1, &mut flat);
            len = old_ivf.row_count(c);
            proof {
                let one = old_ivf@.subrange(c as int, c + 1);
                assert(one =~= seq![old_ivf@[c as int]]);
                one.lemma_flatten_one_element();
            }
        } else {
            assert(flat@ =~= before + Seq::<i64>::empty());
        }
        append(&mut flat, &fresh[c]);
        let added: usize = fresh[c].len();
        lens.push(len + (added as i64));
        proof {
            assert(flat@ =~= before + want[c as int]);
            assert(want.take(c + 1) =~= want.take(c as int).push(want[c as int]));
            want.take(c as int).lemma_flatten_push(want[c as int]);
            assert(lens@ =~= merged_lengths(old_ivf.row_counts(), news).take(c + 1));
        }
        c += 1;
    }
    assert(want.take(want.len() as int) =~= want);
    assert(lens@ =~= merged_lengths(old_ivf.row_counts(), news));
    proof {
        let direct = Seq::new(
            fresh@.len(),
            |i: int|
                if i < old_ivf@.len() {
                    old_ivf@[i] + fresh@[i]@
                } else {
                    fresh@[i]@
                },
        );
        assert forall|i: int| 0 <= i < fresh@.len() implies #[trigger] want[i] == direct[i] by {
            assert(Seq::<i64>::empty() + fresh@[i]@ =~= fresh@[i]@);
        }
        assert(want =~= direct);
        assert forall|i: int| 0 <= i < fresh@.len() implies news[i] == #[trigger] fresh@[i]@ by {}
    }
    (flat, lens)
}

/// No passage of a cell is lost: every merged list is the old list followed by the new passages,
/// and the lengths are those of the merged lists.
pub proof fn merging_keeps_everything(
    old_lists: Seq<Seq<i64>>,
    old_lens: Seq<i64>,
    fresh: Seq<Seq<i64>>,
)
    requires
        old_lens == list_lengths(old_lists),
        forall|c: int| 0 <= c < old_lists.len() ==> (#[trigger] old_lists[c]).len() <= i64::MAX,
    ensures
        merged_lists(old_lists, fresh).len() == fresh.len(),
        merged_lengths(old_lens, fresh) == list_lengths(merged_lists(old_lists, fresh)),
        forall|c: int|
            0 <= c < fresh.len() && c < old_lists.len() ==> (#[trigger] merged_lists(
                old_lists,
                fresh,
            )[c]) == old_lists[c] + fresh[c],
        forall|c: int|
            old_lists.len() <= c < fresh.len() ==> (#[trigger] merged_lists(old_lists, fresh)[c])
                == fresh[c],
{
    assert forall|c: int| old_lists.len() <= c < fresh.len() implies (#[trigger] merged_lists(
        old_lists,
        fresh,
    )[c]) == fresh[c] by {
        assert(Seq::<i64>::empty() + fresh[c] =~= fresh[c]);
    }
    assert forall|c: int| 0 <= c < fresh.len() implies #[trigger] merged_lengths(old_lens, fresh)[c]
        == list_lengths(merged_lists(old_lists, fresh))[c] by {
        if c < old_lists.len() {
            assert(old_lens[c] == old_lists[c].len());
        }
    }
    assert(merged_lengths(old_lens, fresh) =~= list_lengths(merged_lists(old_lists, fresh)));
}

/// The lists of vectors are what the vectors hold.
pub proof fn views_are_what_is_held(lists: Seq<Vec<i64>>, i: int)
    requires
        0 <= i < lists.len(),
    ensures
        list_views(lists).len() == lists.len(),
        list_views(lists)[i] == lists[i]@,
{
}

/// The codes of a document do not depend on what comes after it.
proof fn lemma_front_docs(c1: Seq<i64>, l1: Seq<i64>, c2: Seq<i64>, l2: Seq<i64>, j: int)
    requires
        are_lengths(l1),
        total_rows(l1) == c1.len(),
        0 <= j < l1.len(),
    ensures
        doc_codes(c1 + c2, l1 + l2, j) == doc_codes(c1, l1, j),
{
    lemma_rows_agree(l1, l1 + l2, j as nat);
    lemma_rows_agree(l1, l1 + l2, (j + 1) as nat);
    lemma_rows_monotonic(l1, 0, j as nat);
    lemma_rows_monotonic(l1, j as nat, (j + 1) as nat);
    lemma_rows_monotonic(l1, (j + 1) as nat, l1.len());
    assert(doc_codes(c1 + c2, l1 + l2, j) =~= doc_codes(c1, l1, j));
}

proof fn lemma_rows_shift(l1: Seq<i64>, l2: Seq<i64>, n: nat)
    requires
        n <= l2.len(),
    ensures
        rows_before(l1 + l2, l1.len() + n) == total_rows(l1) + rows_before(l2, n),
    decreases n,
{
    if n == 0 {
        lemma_rows_agree(l1, l1 + l2, l1.len());
    } else {
        lemma_rows_shift(l1, l2, (n - 1) as nat);
        assert((l1 + l2)[l1.len() + n - 1] == l2[n - 1]);
    }
}

proof fn lemma_back_docs(c1: Seq<i64>, l1: Seq<i64>, c2: Seq<i64>, l2: Seq<i64>, j: int)
    requires
        are_lengths(l2),
        total_rows(l1) == c1.len(),
        total_rows(l2) <= c2.len(),
        0 <= j < l2.len(),
    ensures
        doc_codes(c1 + c2, l1 + l2, l1.len() + j) == doc_codes(c2, l2, j),
{
    lemma_rows_shift(l1, l2, j as nat);
    lemma_rows_shift(l1, l2, (j + 1) as nat);
    lemma_rows_monotonic(l2, 0, j as nat);
    lemma_rows_monotonic(l2, j as nat, (j + 1) as nat);
    lemma_rows_monotonic(l2, (j + 1) as nat, l2.len());
    assert(doc_codes(c1 + c2, l1 + l2, l1.len() + j) =~= doc_codes(c2, l2, j));
}

proof fn lemma_front_cell(c1: Seq<i64>, l1: Seq<i64>, c2: Seq<i64>, l2: Seq<i64>, c: i64, n: nat)
    requires
        are_lengths(l1),
        total_rows(l1) == c1.len(),
        n <= l1.len(),
    ensures
        cell_pids(c1 + c2, l1 + l2, 0, c, n) == cell_pids(c1, l1, 0, c, n),
    decreases n,
{
    if n > 0 {
        lemma_front_cell(c1, l1, c2, l2, c, (n - 1) as nat);
        lemma_front_docs(c1, l1, c2, l2, n - 1);
    }
}

proof fn lemma_whole_cell(c1: Seq<i64>, l1: Seq<i64>, c2: Seq<i64>, l2: Seq<i64>, c: i64, n: nat)
    requires
        are_lengths(l1),
        are_lengths(l2),
        total_rows(l1) == c1.len(),
        total_rows(l2) <= c2.len(),
        n <= l2.len(),
    ensures
        cell_pids(c1 + c2, l1 + l2, 0, c, l1.len() + n) == cell_pids(c1, l1, 0, c, l1.len())
            + cell_pids(c2, l2, l1.len() as int, c, n),
    decreases n,
{
    let front = cell_pids(c1, l1, 0, c, l1.len());
    if n == 0 {
        lemma_front_cell(c1, l1, c2, l2, c, l1.len());
        assert(front + Seq::<i64>::empty() =~= front);
    } else {
        let m = (n - 1) as nat;
        lemma_whole_cell(c1, l1, c2, l2, c, m);
        lemma_back_docs(c1, l1, c2, l2, m as int);
        let back = cell_pids(c2, l2, l1.len() as int, c, m);
        assert((front + back).push((l1.len() + m) as i64) =~= front + back.push(
            (l1.len() + m) as i64,
        ));
    }
}

/// A cell whose code no token has lists no passage.
proof fn lemma_absent_code(codes: Seq<i64>, lens: Seq<i64>, first: int, c: i64, n: nat)
    requires
        are_lengths(lens),
        total_rows(lens) == codes.len(),
        n <= lens.len(),
        !codes.contains(c),
    ensures
        cell_pids(codes, lens, first, c, n) == Seq::<i64>::empty(),
    decreases n,
{
    if n > 0 {
        lemma_absent_code(codes, lens, first, c, (n - 1) as nat);
        lemma_rows_monotonic(lens, 0, (n - 1) as nat);
        lemma_rows_monotonic(lens, (n - 1) as nat, n);
        lemma_rows_monotonic(lens, n, lens.len());
        let here = doc_codes(codes, lens, n - 1);
        if here.contains(c) {
            let i = choose|i: int| 0 <= i < here.len() && here[i] == c;
            assert(codes[rows_before(lens, (n - 1) as nat) + i] == c);
        }
    }
}

/// Updating is as good as building anew: merging the passages of new documents into the inverted
/// file of the old ones gives the lists of the first `cells` cells for all documents together. Old
/// lists beyond these cells are dropped. When the old file covers fewer cells, this takes that every
/// old code is of a cell that it covers.
pub proof fn update_equals_rebuild(
    old_codes: Seq<i64>,
    old_doclens: Seq<i64>,
    new_codes: Seq<i64>,
    new_doclens: Seq<i64>,
    old_cells: int,
    cells: int,
)
    requires
        are_lengths(old_doclens),
        are_lengths(new_doclens),
        total_rows(old_doclens) == old_codes.len(),
        total_rows(new_doclens) == new_codes.len(),
        0 <= old_cells,
        0 <= cells <= i64::MAX,
        old_cells < cells ==> forall|i: int|
            0 <= i < old_codes.len() ==> (#[trigger] old_codes[i]) < old_cells,
    ensures
        merged_lists(
            cell_lists(old_codes, old_doclens, 0, old_cells),
            cell_lists(new_codes, new_doclens, old_doclens.len() as int, cells),
        ) == cell_lists(old_codes + new_codes, old_doclens + new_doclens, 0, cells),
{
    let old_lists = cell_lists(old_codes, old_doclens, 0, old_cells);
    let fresh = cell_lists(new_codes, new_doclens, old_doclens.len() as int, cells);
    let whole = cell_lists(old_codes + new_codes, old_doclens + new_doclens, 0, cells);
    assert forall|c: int| 0 <= c < cells implies #[trigger] merged_lists(old_lists, fresh)[c]
        == whole[c] by {
        lemma_whole_cell(
            old_codes,
            old_doclens,
            new_codes,
            new_doclens,
            c as i64,
            new_doclens.len(),
        );
        if old_cells <= c {
            lemma_absent_code(old_codes, old_doclens, 0, c as i64, old_doclens.len());
        }
    }
    assert(merged_lists(old_lists, fresh) =~= whole);
}

/// Lists stay increasing: the numbers of new documents lie above all old ones.
pub proof fn merged_lists_stay_increasing(
    old_list: Seq<i64>,
    codes: Seq<i64>,
    doclens: Seq<i64>,
    first: int,
    c: i64,
)
    requires
        increasing(old_list),
        forall|i: int| 0 <= i < old_list.len() ==> #[trigger] old_list[i] < first,
        i64::MIN <= first,
        first + doclens.len() <= i64::MAX,
    ensures
        increasing(old_list + cell_pids(codes, doclens, first, c, doclens.len())),
{
    let fresh = cell_pids(codes, doclens, first, c, doclens.len());
    let all = old_list + fresh;
    listed_iff_coded(codes, doclens, first, c, doclens.len());
    assert forall|i: int, j: int| 0 <= i < j < all.len() implies #[trigger] all[i]
        < #[trigger] all[j] by {
        if i < old_list.len() && j >= old_list.len() {
            let p = fresh[j - old_list.len()];
            assert(fresh.contains(p));
        }
    }
}

} // verus!
