//! Lists of varying length stored one after another.

use vstd::prelude::*;

verus! {

/// Lists of rows stored back to back. A list has a length in rows, and every row has the same
/// number of entries.
pub struct StridedTensor<T> {
    data: Vec<T>,
    lengths: Vec<i64>,
    starts: Vec<usize>,
    width: usize,
}

/// Total number of rows in the first `n` lists.
pub open spec fn rows_before(lengths: Seq<i64>, n: nat) -> int
    decreases n,
{
    if n == 0 {
        0
    } else {
        rows_before(lengths, (n - 1) as nat) + lengths[n - 1]
    }
}

/// Total number of rows.
pub open spec fn total_rows(lengths: Seq<i64>) -> int {
    rows_before(lengths, lengths.len())
}

/// No length is negative.
pub open spec fn are_lengths(lengths: Seq<i64>) -> bool {
    forall|i: int| 0 <= i < lengths.len() ==> 0 <= #[trigger] lengths[i]
}

/// Every identifier names one of `n` lists.
pub open spec fn ids_in(ids: Seq<i64>, n: nat) -> bool {
    forall|i: int| 0 <= i < ids.len() ==> 0 <= #[trigger] ids[i] < n
}

/// Whether every identifier names one of `n` lists.
pub fn check_ids(ids: &Vec<i64>, n: usize) -> (r: bool)
    ensures
        r == ids_in(ids@, n as nat),
        r <==> forall|i: int| 0 <= i < ids@.len() ==> 0 <= #[trigger] ids@[i] < n,
{
    let mut i: usize = 0;
    while i < ids.len()
        invariant
            i <= ids@.len(),
            forall|j: int| 0 <= j < i ==> 0 <= #[trigger] ids@[j] < n,
        decreases ids@.len() - i,
    {
        let id: i64 = ids[i];
        if id < 0 || id as u64 >= n as u64 {
            assert(!(0 <= ids@[i as int] < n));
            return false;
        }
        i += 1;
    }
    true
}

/// The same identifiers once more.
pub fn copy_ids(v: &Vec<i64>) -> (r: Vec<i64>)
    ensures
        r@ == v@,
{
    let mut out: Vec<i64> = Vec::new();
    let mut i: usize = 0;
    while i < v.len()
        invariant
            i <= v@.len(),
            out@ == v@.take(i as int),
        decreases v@.len() - i,
    {
        out.push(v[i]);
        i += 1;
        assert(out@ =~= v@.take(i as int));
    }
    assert(out@ =~= v@);
    out
}

/// Puts `more` behind what `out` holds.
pub fn append<T: Copy>(out: &mut Vec<T>, more: &Vec<T>)
    ensures
        final(out)@ == old(out)@ + more@,
{
    let mut i: usize = 0;
    while i < more.len()
        invariant
            i <= more.len(),
            out@ == old(out)@ + more@.take(i as int),
        decreases more.len() - i,
    {
        out.push(more[i]);
        i += 1;
        assert(more@.take(i as int) =~= more@.take(i - 1).push(more[i - 1]));
        assert(out@ =~= old(out)@ + more@.take(i as int));
    }
    assert(more@.take(i as int) =~= more@);
}

/// The lists named by `ids`, in that order.
pub open spec fn chosen<T>(lists: Seq<Seq<T>>, ids: Seq<i64>) -> Seq<Seq<T>> {
    Seq::new(ids.len(), |i: int| lists[ids[i] as int])
}

/// The lists that `data` holds back to back.
pub open spec fn split_lists<T>(data: Seq<T>, lengths: Seq<i64>, width: nat) -> Seq<Seq<T>> {
    Seq::new(
        lengths.len(),
        |i: int|
            data.subrange(
                rows_before(lengths, i as nat) * width,
                rows_before(lengths, (i + 1) as nat) * width,
            ),
    )
}

/// The rows before a list are the sum of the lengths before it.
pub proof fn rows_are_added_up(lengths: Seq<i64>, n: nat)
    requires
        n <= lengths.len(),
    ensures
        rows_before(lengths, n) == lengths.take(n as int).fold_left(
            0int,
            |sum: int, l: i64| sum + l,
        ),
        n == lengths.len() ==> total_rows(lengths) == lengths.fold_left(
            0int,
            |sum: int, l: i64| sum + l,
        ),
    decreases n,
{
    let front = lengths.take(n as int);
    if n > 0 {
        rows_are_added_up(lengths, (n - 1) as nat);
        assert(front.drop_last() =~= lengths.take(n - 1));
    }
    if n == lengths.len() {
        assert(front =~= lengths);
    }
}

/// Lists that are split from data hold all of it, in order: entry `x` of list `i` stands `x`
/// entries behind where the lists before it end.
pub proof fn split_lists_hold_the_data<T>(
    data: Seq<T>,
    lengths: Seq<i64>,
    width: nat,
    i: int,
    x: int,
)
    requires
        are_lengths(lengths),
        total_rows(lengths) * width == data.len(),
        0 <= i < lengths.len(),
        0 <= x < lengths[i] * width,
    ensures
        split_lists(data, lengths, width).len() == lengths.len(),
        split_lists(data, lengths, width)[i].len() == lengths[i] * width,
        split_lists(data, lengths, width)[i][x] == data[lengths.take(i).fold_left(
            0int,
            |sum: int, l: i64| sum + l,
        ) * width + x],
        split_lists(data, lengths, width).flatten() == data,
{
    let a = rows_before(lengths, i as nat);
    let b = rows_before(lengths, (i + 1) as nat);
    let all = total_rows(lengths);
    rows_are_added_up(lengths, i as nat);
    lemma_rows_monotonic(lengths, i as nat, (i + 1) as nat);
    lemma_rows_monotonic(lengths, (i + 1) as nat, lengths.len());
    assert(0 <= a * width <= b * width <= all * width && b * width - a * width == lengths[i] * width)
        by (nonlinear_arith)
        requires
            0 <= a <= b <= all,
            b == a + lengths[i],
            0 <= width,
    ;
    lemma_split_flatten(data, lengths, width, lengths.len());
    let lists = split_lists(data, lengths, width);
    assert(lists.take(lengths.len() as int) =~= lists);
    assert(data.take(data.len() as int) =~= data);
}

/// The lists that are chosen are those that are named, in that order.
pub proof fn chosen_lists_are_those_named<T>(lists: Seq<Seq<T>>, ids: Seq<i64>, i: int)
    requires
        0 <= i < ids.len(),
    ensures
        chosen(lists, ids).len() == ids.len(),
        chosen(lists, ids)[i] == lists[ids[i] as int],
{
}

/// More lists have no fewer rows.
pub proof fn lemma_rows_monotonic(lengths: Seq<i64>, a: nat, b: nat)
    requires
        are_lengths(lengths),
        a <= b <= lengths.len(),
    ensures
        0 <= rows_before(lengths, a) <= rows_before(lengths, b),
    decreases b,
{
    if a < b {
        lemma_rows_monotonic(lengths, a, (b - 1) as nat);
        assert(0 <= lengths[b - 1]);
    } else if b > 0 {
        lemma_rows_monotonic(lengths, (a - 1) as nat, (b - 1) as nat);
        assert(0 <= lengths[b - 1]);
    }
}

/// Only the lengths before a list say where it starts.
pub proof fn lemma_rows_agree(a: Seq<i64>, b: Seq<i64>, n: nat)
    requires
        n <= a.len(),
        n <= b.len(),
        forall|i: int| 0 <= i < n ==> a[i] == b[i],
    ensures
        rows_before(a, n) == rows_before(b, n),
    decreases n,
{
    if n > 0 {
        lemma_rows_agree(a, b, (n - 1) as nat);
    }
}

/// Lists split from data, put back to back again, are the data they came from.
pub proof fn lemma_split_flatten<T>(data: Seq<T>, lengths: Seq<i64>, width: nat, n: nat)
    requires
        are_lengths(lengths),
        n <= lengths.len(),
        total_rows(lengths) * width <= data.len(),
    ensures
        0 <= rows_before(lengths, n) * width <= data.len(),
        split_lists(data, lengths, width).take(n as int).flatten() == data.take(
            rows_before(lengths, n) * width,
        ),
    decreases n,
{
    let lists = split_lists(data, lengths, width);
    let here = rows_before(lengths, n);
    let all = total_rows(lengths);
    lemma_rows_monotonic(lengths, n, lengths.len());
    assert(0 <= here * width <= all * width) by (nonlinear_arith)
        requires
            0 <= here <= all,
            0 <= width,
    ;
    if n == 0 {
        assert(lists.take(0) =~= Seq::<Seq<T>>::empty());
        assert(0 * width == 0);
        assert(data.take(0) =~= Seq::<T>::empty());
    } else {
        let m = (n - 1) as nat;
        lemma_split_flatten(data, lengths, width, m);
        let before = rows_before(lengths, m);
        lemma_rows_monotonic(lengths, m, n);
        assert(before * width <= here * width) by (nonlinear_arith)
            requires
                before <= here,
                0 <= width,
        ;
        assert(lists.take(n as int) =~= lists.take(m as int).push(lists[m as int]));
        lists.take(m as int).lemma_flatten_push(lists[m as int]);
        assert(data.take(here * width) =~= data.take(before * width) + lists[m as int]);
    }
}

impl<T> View for StridedTensor<T> {
    type V = Seq<Seq<T>>;

    closed spec fn view(&self) -> Seq<Seq<T>> {
        split_lists(self.data@, self.lengths@, self.width as nat)
    }
}

impl<T: Copy> StridedTensor<T> {
    /// The parts agree with one another.
    pub closed spec fn wf(&self) -> bool {
        &&& are_lengths(self.lengths@)
        &&& total_rows(self.lengths@) * self.width == self.data@.len()
        &&& self.starts@.len() == self.lengths@.len() + 1
        &&& forall|i: int|
            0 <= i <= self.lengths@.len() ==> #[trigger] self.starts@[i] == rows_before(
                self.lengths@,
                i as nat,
            ) * self.width
    }

    /// Length of every list, in rows.
    pub closed spec fn row_counts(&self) -> Seq<i64> {
        self.lengths@
    }

    /// Entries per row.
    pub closed spec fn row_width(&self) -> nat {
        self.width as nat
    }

    /// All entries, back to back.
    pub closed spec fn entries(&self) -> Seq<T> {
        self.data@
    }

    /// What the parts of a well-formed value have to do with one another.
    pub proof fn lemma_parts(&self)
        requires
            self.wf(),
        ensures
            are_lengths(self.row_counts()),
            self@ == split_lists(self.entries(), self.row_counts(), self.row_width()),
            self@.len() == self.row_counts().len(),
            self@.flatten() == self.entries(),
            self.entries().len() == total_rows(self.row_counts()) * self.row_width(),
            forall|i: int|
                0 <= i < self@.len() ==> (#[trigger] self@[i]).len() == self.row_counts()[i]
                    * self.row_width(),
    {
        let n = self.lengths@.len();
        lemma_split_flatten(self.data@, self.lengths@, self.width as nat, n);
        assert(self@.take(n as int) =~= self@);
        assert(self.data@.take(self.data@.len() as int) =~= self.data@);
        assert forall|i: int| 0 <= i < self@.len() implies (#[trigger] self@[i]).len()
            == self.row_counts()[i] * self.row_width() by {
            let w = self.width as int;
            let a = rows_before(self.lengths@, i as nat);
            let b = rows_before(self.lengths@, (i + 1) as nat);
            let all = total_rows(self.lengths@);
            lemma_rows_monotonic(self.lengths@, i as nat, (i + 1) as nat);
            lemma_rows_monotonic(self.lengths@, (i + 1) as nat, n);
            assert(0 <= a * w <= b * w <= all * w) by (nonlinear_arith)
                requires
                    0 <= a <= b <= all,
                    0 <= w,
            ;
            assert(b * w - a * w == (b - a) * w) by (nonlinear_arith);
        }
    }

    /// Splits `data` into lists of the given lengths, `width` entries to a row. Nothing, unless the
    /// lengths are not negative and account for all of `data`.
    pub fn new(data: Vec<T>, lengths: Vec<i64>, width: usize) -> (r: Option<Self>)
        ensures
            r is Some <==> are_lengths(lengths@) && total_rows(lengths@) * width == data@.len(),
            r is Some <==> (forall|i: int| 0 <= i < lengths@.len() ==> 0 <= #[trigger] lengths@[i])
                && lengths@.fold_left(0int, |sum: int, l: i64| sum + l) * width == data@.len(),
            r matches Some(t) ==> {
                &&& t.wf()
                &&& t.entries() == data@
                &&& t.row_counts() == lengths@
                &&& t.row_width() == width
                &&& t@ == split_lists(data@, lengths@, width as nat)
            },
    {
        proof {
            rows_are_added_up(lengths@, lengths@.len());
            assert(lengths@.take(lengths@.len() as int) =~= lengths@);
        }
        let mut starts: Vec<usize> = Vec::new();
        starts.push(0);
        let mut at: usize = 0;
        let mut i: usize = 0;
        assert(0 * width == 0);
        while i < lengths.len()
            invariant
                i <= lengths@.len(),
                total_rows(lengths@) == lengths@.fold_left(0int, |sum: int, l: i64| sum + l),
                starts@.len() == i + 1,
                at == starts@[i as int],
                at <= data@.len(),
                forall|k: int| 0 <= k < i ==> 0 <= #[trigger] lengths@[k],
                forall|k: int|
                    0 <= k <= i ==> #[trigger] starts@[k] == rows_before(lengths@, k as nat)
                        * width,
            decreases lengths@.len() - i,
        {
            let l: i64 = lengths[i];
            if l < 0 {
                return None;
            }
            let ghost before = rows_before(lengths@, i as nat);
            let rows: u128 = l as u128;
            assert(rows * width <= 0x7fff_ffff_ffff_ffff * 0xffff_ffff_ffff_ffff)
                by (nonlinear_arith)
                requires
                    0 <= rows <= 0x7fff_ffff_ffff_ffff,
                    0 <= width <= 0xffff_ffff_ffff_ffff,
            ;
            let end: u128 = (at as u128) + rows * (width as u128);
            assert((before + l) * width == before * width + l * width) by (nonlinear_arith);
            assert(end == rows_before(lengths@, (i + 1) as nat) * width);
            if end > data.len() as u128 {
                proof {
                    if are_lengths(lengths@) {
                        lemma_rows_monotonic(lengths@, (i + 1) as nat, lengths@.len());
                        let a = rows_before(lengths@, (i + 1) as nat);
                        let b = total_rows(lengths@);
                        assert(a * width <= b * width) by (nonlinear_arith)
                            requires
                                a <= b,
                                0 <= width,
                        ;
                    }
                }
                return None;
            }
            at = end as usize;
            starts.push(at);
            i += 1;
        }
        if at != data.len() {
            return None;
        }
        Some(StridedTensor { data, lengths, starts, width })
    }

    /// Number of lists.
    pub fn len(&self) -> (r: usize)
        requires
            self.wf(),
        ensures
            r == self@.len(),
            r == self.row_counts().len(),
    {
        self.lengths.len()
    }

    /// Entries per row.
    pub fn width(&self) -> (r: usize)
        ensures
            r == self.row_width(),
    {
        self.width
    }

    /// Length of list `i`, in rows.
    pub fn row_count(&self, i: usize) -> (r: i64)
        requires
            self.wf(),
            i < self@.len(),
        ensures
            r == self.row_counts()[i as int],
            r >= 0,
    {
        self.lengths[i]
    }

    /// Copies the entries of lists `from..to` to the end of `out`.
    pub fn copy_lists(&self, from: usize, to: usize, out: &mut Vec<T>)
        requires
            self.wf(),
            from <= to <= self@.len(),
        ensures
            final(out)@ == old(out)@ + self@.subrange(from as int, to as int).flatten(),
    {
        let ghost before = out@;
        let a: usize = self.starts[from];
        let b: usize = self.starts[to];
        proof {
            self.lemma_range(from as int, to as int);
        }
        let mut i: usize = a;
        while i < b
            invariant
                a <= i <= b <= self.data@.len(),
                out@ == before + self.data@.subrange(a as int, i as int),
            decreases b - i,
        {
            out.push(self.data[i]);
            i += 1;
            assert(self.data@.subrange(a as int, i as int) =~= self.data@.subrange(
                a as int,
                i - 1,
            ).push(self.data@[i - 1]));
            assert(out@ =~= before + self.data@.subrange(a as int, i as int));
        }
    }

    proof fn lemma_range(&self, from: int, to: int)
        requires
            self.wf(),
            0 <= from <= to <= self@.len(),
        ensures
            self.starts@[from] <= self.starts@[to] <= self.data@.len(),
            self@.subrange(from, to).flatten() == self.data@.subrange(
                self.starts@[from] as int,
                self.starts@[to] as int,
            ),
    {
        let n = self.lengths@.len();
        let w = self.width as nat;
        lemma_rows_monotonic(self.lengths@, from as nat, to as nat);
        let ra = rows_before(self.lengths@, from as nat);
        let rb = rows_before(self.lengths@, to as nat);
        assert(ra * w <= rb * w) by (nonlinear_arith)
            requires
                ra <= rb,
                0 <= w,
        ;
        lemma_split_flatten(self.data@, self.lengths@, w, from as nat);
        lemma_split_flatten(self.data@, self.lengths@, w, to as nat);
        let head = self@.take(from);
        let mid = self@.subrange(from, to);
        assert(self@.take(to) =~= head + mid);
        vstd::seq_lib::lemma_flatten_concat(head, mid);
        let a = self.starts@[from] as int;
        let b = self.starts@[to] as int;
        assert(mid.flatten() =~= (head.flatten() + mid.flatten()).subrange(
            head.flatten().len() as int,
            (head.flatten() + mid.flatten()).len() as int,
        ));
        assert(self.data@.take(b).subrange(a, b) =~= self.data@.subrange(a, b));
    }

    /// The lists named by `ids` back to back, and their lengths.
    pub fn lookup(&self, ids: &Vec<i64>) -> (r: (Vec<T>, Vec<i64>))
        requires
            self.wf(),
            ids_in(ids@, self@.len()),
        ensures
            r.0@ == chosen(self@, ids@).flatten(),
            r.0@ == Seq::new(ids@.len(), |i: int| self@[ids@[i] as int]).flatten(),
            r.1@ == Seq::new(ids@.len(), |i: int| self.row_counts()[ids@[i] as int]),
    {
        let mut data: Vec<T> = Vec::new();
        let mut lens: Vec<i64> = Vec::new();
        let ghost all = chosen(self@, ids@);
        assert(all.take(0) =~= Seq::<Seq<T>>::empty());
        let mut i: usize = 0;
        while i < ids.len()
            invariant
                i <= ids@.len(),
                self.wf(),
                ids_in(ids@, self@.len()),
                all == chosen(self@, ids@),
                data@ == all.take(i as int).flatten(),
                lens@ == Seq::new(i as nat, |k: int| self.row_counts()[ids@[k] as int]),
            decreases ids@.len() - i,
        {
            let n: usize = self.lengths.len();
            assert(0 <= ids@[i as int] < n);
            let id: usize = ids[i] as usize;
            self.copy_lists(id, id + 1, &mut data);
            lens.push(self.lengths[id]);
            proof {
                let one = self@.subrange(id as int, id + 1);
                assert(one =~= seq![self@[id as int]]);
                one.lemma_flatten_one_element();
                assert(all.take(i + 1) =~= all.take(i as int).push(all[i as int]));
                all.take(i as int).lemma_flatten_push(all[i as int]);
                assert(lens@ =~= Seq::new(
                    (i + 1) as nat,
                    |k: int| self.row_counts()[ids@[k] as int],
                ));
            }
            i += 1;
        }
        assert(all.take(all.len() as int) =~= all);
        assert(all =~= Seq::new(ids@.len(), |k: int| self@[ids@[k] as int]));
        (data, lens)
    }
}

} // verus!
