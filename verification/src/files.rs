//! Names of the files of an index.

use vstd::prelude::*;
use vstd::utf8::is_ascii_chars;

use crate::order::{same_members, sort_unique};
use crate::text::{all_digits, decimal, decimal_reads_back, decimal_value, is_digit, parse_digits_i64, push_decimal};

verus! {

/// The digits that a file name gives as its chunk, as the pattern `doclens\.(\d+)\.json` of the
/// crate `regex` captures them; nothing when the pattern occurs nowhere in the name.
pub uninterp spec fn doclens_digits(name: Seq<char>) -> Option<Seq<char>>;

/// At `at`, the name reads `doclens.`, then `n` digits, then `.json`.
pub open spec fn doclens_at(name: Seq<char>, at: int, n: int) -> bool {
    &&& 0 <= at
    &&& 0 < n
    &&& at + n + 13 <= name.len()
    &&& name.subrange(at, at + 8) == "doclens."@
    &&& all_digits(name.subrange(at + 8, at + 8 + n))
    &&& name.subrange(at + 8 + n, at + 13 + n) == ".json"@
}

/// `digits` are those of the first place at which the name reads `doclens.`, digits, `.json`.
pub open spec fn first_doclens(name: Seq<char>, digits: Option<Seq<char>>) -> bool {
    match digits {
        Some(d) => exists|at: int|
            {
                &&& #[trigger] doclens_at(name, at, d.len() as int)
                &&& d == name.subrange(at + 8, at + 8 + d.len())
                &&& forall|b: int, n: int| #[trigger] doclens_at(name, b, n) ==> at <= b
            },
        None => forall|b: int, n: int| !#[trigger] doclens_at(name, b, n),
    }
}

/// Calls `regex::Regex::captures` with the pattern `doclens\.(\d+)\.json` and takes its group. The
/// group is a function of the name. In a name of ASCII characters it holds the digits of the first
/// place at which the pattern stands; elsewhere the pattern also accepts digits of other scripts,
/// of which no more is said.
#[verifier::external_body]
fn capture_doclens(name: &str) -> (r: Option<String>)
    ensures
        r is Some <==> doclens_digits(name@) is Some,
        r matches Some(d) ==> doclens_digits(name@) == Some(d@),
        is_ascii_chars(name@) ==> first_doclens(
            name@,
            match r {
                Some(d) => Some(d@),
                None => None,
            },
        ),
{
    let pattern = regex::Regex::new(r"doclens\.(\d+)\.json").unwrap();
    let groups = pattern.captures(name)?;
    Some(groups.get(1)?.as_str().to_string())
}

/// The chunk that a file name names, if it names one: the outer result is an error when the digits
/// denote no `i64`.
pub open spec fn chunk_of_name(name: Seq<char>) -> Result<Option<i64>, ()> {
    match doclens_digits(name) {
        None => Ok(None),
        Some(d) => if d.len() > 0 && all_digits(d) && decimal_value(d) <= i64::MAX {
            Ok(Some(decimal_value(d) as i64))
        } else {
            Err(())
        },
    }
}

/// `prefix`, a number, `suffix`.
fn numbered(prefix: &str, n: usize, suffix: &str) -> (r: String)
    ensures
        r@ == prefix@ + decimal(n as nat) + suffix@,
{
    let mut out = String::new();
    out.append(prefix);
    push_decimal(&mut out, n);
    out.append(suffix);
    assert(out@ =~= prefix@ + decimal(n as nat) + suffix@);
    out
}

/// Name of the file with the codes of chunk `n`.
pub fn codes_file(n: usize) -> (r: String)
    ensures
        r@ == decimal(n as nat) + ".codes.npy"@,
{
    let r = numbered("", n, ".codes.npy");
    proof {
        reveal_strlit("");
        assert(""@ + decimal(n as nat) =~= decimal(n as nat));
    }
    r
}

/// Name of the file with the packed residuals of chunk `n`.
pub fn residuals_file(n: usize) -> (r: String)
    ensures
        r@ == decimal(n as nat) + ".residuals.npy"@,
{
    let r = numbered("", n, ".residuals.npy");
    proof {
        reveal_strlit("");
        assert(""@ + decimal(n as nat) =~= decimal(n as nat));
    }
    r
}

/// Name of the file with the metadata of chunk `n`.
pub fn metadata_file(n: usize) -> (r: String)
    ensures
        r@ == decimal(n as nat) + ".metadata.json"@,
{
    let r = numbered("", n, ".metadata.json");
    proof {
        reveal_strlit("");
        assert(""@ + decimal(n as nat) =~= decimal(n as nat));
    }
    r
}

/// Name of the file with the document lengths of chunk `n`. The chunk can be read back from it.
pub fn doclens_file(n: usize) -> (r: String)
    ensures
        r@ == "doclens."@ + decimal(n as nat) + ".json"@,
{
    numbered("doclens.", n, ".json")
}

/// In a name made of `doclens.`, the digits of `n` and `.json`, the first place at which the
/// pattern stands is the beginning, and the digits are those of `n`.
proof fn lemma_written_name(n: nat, digits: Option<Seq<char>>)
    requires
        first_doclens("doclens."@ + decimal(n) + ".json"@, digits),
    ensures
        digits == Some(decimal(n)),
{
    let name = "doclens."@ + decimal(n) + ".json"@;
    let d = decimal(n);
    reveal_strlit("doclens.");
    reveal_strlit(".json");
    decimal_reads_back(n);
    assert("doclens."@.len() == 8);
    assert(".json"@.len() == 5);
    assert(name.subrange(0, 8) =~= "doclens."@);
    assert(name.subrange(8, 8 + d.len() as int) =~= d);
    assert(name.subrange(8 + d.len() as int, 13 + d.len() as int) =~= ".json"@);
    assert(doclens_at(name, 0, d.len() as int));
    let got = digits->Some_0;
    let at = choose|at: int|
        {
            &&& #[trigger] doclens_at(name, at, got.len() as int)
            &&& got == name.subrange(at + 8, at + 8 + got.len())
            &&& forall|b: int, m: int| #[trigger] doclens_at(name, b, m) ==> at <= b
        };
    assert(at == 0);
    let run = name.subrange(8, 8 + got.len() as int);
    if got.len() < d.len() {
        let tail = name.subrange(8 + got.len() as int, 13 + got.len() as int);
        assert(tail[0] == '.');
        assert(tail[0] == d[got.len() as int]);
        assert(is_digit(d[got.len() as int]));
    } else if got.len() > d.len() {
        assert(run[d.len() as int] == name[8 + d.len() as int]);
        assert(name[8 + d.len() as int] == '.');
        assert(is_digit(run[d.len() as int]));
    }
    assert(got =~= d);
}

/// A name made of `doclens.`, the digits of `n` and `.json` holds ASCII characters only.
proof fn lemma_written_ascii(n: nat)
    ensures
        is_ascii_chars("doclens."@ + decimal(n) + ".json"@),
{
    let name = "doclens."@ + decimal(n) + ".json"@;
    reveal_strlit("doclens.");
    reveal_strlit(".json");
    decimal_reads_back(n);
    assert forall|i: int| 0 <= i < name.len() implies (#[trigger] name[i]) as nat <= 127 by {
        if 8 <= i < 8 + decimal(n).len() {
            assert(is_digit(decimal(n)[i - 8]));
        }
    }
}

/// The chunk whose document lengths a file of this name holds. Nothing for any other file, and an
/// error when the digits in the name denote no `i64`. From the name that [`doclens_file`] gives to
/// a chunk, that chunk is read.
pub fn doclens_chunk(name: &str) -> (r: Result<Option<i64>, ()>)
    ensures
        r == chunk_of_name(name@),
        r == Ok::<Option<i64>, ()>(None) <==> doclens_digits(name@) is None,
        doclens_digits(name@) matches Some(d) ==> (r is Ok <==> d.len() > 0 && (forall|i: int|
            0 <= i < d.len() ==> '0' <= #[trigger] d[i] && d[i] <= '9') && decimal_value(d)
            <= i64::MAX),
        doclens_digits(name@) matches Some(d) ==> r is Ok ==> r->Ok_0 is Some && r->Ok_0->0
            == decimal_value(d),
        forall|n: nat|
            n <= i64::MAX && name@ == "doclens."@ + #[trigger] decimal(n) + ".json"@ ==> r == Ok::<
                Option<i64>,
                (),
            >(Some(n as i64)),
{
    let digits = capture_doclens(name);
    let ghost found = if digits is Some {
        Some(digits->0@)
    } else {
        None
    };
    proof {
        assert forall|n: nat|
            n <= i64::MAX && name@ == "doclens."@ + #[trigger] decimal(n) + ".json"@ implies found
            == Some(decimal(n)) && decimal(n).len() > 0 && all_digits(decimal(n)) && decimal_value(
            decimal(n),
        ) == n by {
            lemma_written_ascii(n);
            lemma_written_name(n, found);
            decimal_reads_back(n);
        }
    }
    match digits {
        None => Ok(None),
        Some(d) => match parse_digits_i64(d.as_str()) {
            Some(id) => Ok(Some(id)),
            None => Err(()),
        },
    }
}

/// The chunk that name `i` names, if it names one.
pub open spec fn chunk_at(names: Seq<String>, i: int) -> Option<i64> {
    match chunk_of_name(names[i]@) {
        Ok(id) => id,
        Err(_) => None,
    }
}

/// `r` holds the places of the names that name chunks, by increasing chunk. Where several name the
/// same chunk, the last one stands for it.
pub open spec fn is_chunk_order(names: Seq<String>, r: Seq<usize>) -> bool {
    &&& forall|k: int|
        0 <= k < r.len() ==> {
            &&& #[trigger] r[k] < names.len()
            &&& chunk_at(names, r[k] as int) is Some
            &&& forall|i: int|
                r[k] < i < names.len() ==> #[trigger] chunk_at(names, i) != chunk_at(
                    names,
                    r[k] as int,
                )
        }
    &&& forall|j: int, k: int|
        0 <= j < k < r.len() ==> chunk_at(names, #[trigger] r[j] as int)->0 < chunk_at(
            names,
            #[trigger] r[k] as int,
        )->0
    &&& forall|i: int|
        0 <= i < names.len() && #[trigger] chunk_at(names, i) is Some ==> exists|k: int|
            0 <= k < r.len() && chunk_at(names, #[trigger] r[k] as int) == chunk_at(names, i)
}

/// Orders the files of a directory that hold document lengths by their chunk. An error gives the
/// place of the first name whose digits denote no `i64`.
pub fn order_doclens_files(names: &Vec<String>) -> (r: Result<Vec<usize>, usize>)
    ensures
        match r {
            Err(i) => {
                &&& i < names.len()
                &&& chunk_of_name(names[i as int]@) is Err
                &&& forall|j: int| 0 <= j < i ==> #[trigger] chunk_of_name(names@[j]@) is Ok
            },
            Ok(v) => {
                &&& forall|j: int|
                    0 <= j < names.len() ==> #[trigger] chunk_of_name(names@[j]@) is Ok
                &&& is_chunk_order(names@, v@)
                &&& forall|k: int|
                    0 <= k < v@.len() ==> (#[trigger] v@[k]) < names@.len() && chunk_of_name(
                        names@[v@[k] as int]@,
                    )->Ok_0 is Some
                &&& forall|j: int, k: int|
                    0 <= j < k < v@.len() ==> chunk_of_name(names@[#[trigger] v@[j] as int]@)->Ok_0->0
                        < chunk_of_name(names@[#[trigger] v@[k] as int]@)->Ok_0->0
                &&& forall|k: int, i: int|
                    0 <= k < v@.len() && v@[k] < i < names@.len() ==> chunk_of_name(
                        #[trigger] names@[i]@,
                    ) != chunk_of_name(names@[#[trigger] v@[k] as int]@)
                &&& forall|i: int|
                    0 <= i < names@.len() && chunk_of_name(#[trigger] names@[i]@)->Ok_0 is Some
                        ==> exists|k: int|
                        0 <= k < v@.len() && chunk_of_name(names@[#[trigger] v@[k] as int]@)
                            == chunk_of_name(names@[i]@)
            },
        },
{
    let mut chunks: Vec<Option<i64>> = Vec::new();
    let mut ids: Vec<i64> = Vec::new();
    let mut i: usize = 0;
    while i < names.len()
        invariant
            i <= names.len(),
            chunks.len() == i,
            forall|j: int| 0 <= j < i ==> #[trigger] chunk_of_name(names@[j]@) is Ok,
            forall|j: int| 0 <= j < i ==> #[trigger] chunks[j] == chunk_at(names@, j),
            forall|j: int|
                0 <= j < i && #[trigger] chunks[j] is Some ==> ids@.contains(chunks[j]->0),
            forall|k: int| 0 <= k < ids.len() ==> chunks@.contains(Some(#[trigger] ids[k])),
        decreases names.len() - i,
    {
        match doclens_chunk(names[i].as_str()) {
            Err(_) => {
                return Err(i);
            },
            Ok(None) => {
                let ghost before = chunks@;
                chunks.push(None);
                assert forall|k: int| 0 <= k < ids.len() implies chunks@.contains(
                    Some(#[trigger] ids[k]),
                ) by {
                    let j = before.index_of(Some(ids[k]));
                    assert(before.contains(Some(ids[k])));
                    assert(chunks[j] == Some(ids[k]));
                }
            },
            Ok(Some(id)) => {
                let ghost before = chunks@;
                let ghost known = ids@;
                chunks.push(Some(id));
                ids.push(id);
                proof {
                    assert forall|j: int| 0 <= j < i + 1 && #[trigger] chunks[j] is Some implies ids@.contains(
                        chunks[j]->0,
                    ) by {
                        if j < i {
                            assert(before[j] == chunks[j]);
                            let k = choose|k: int| 0 <= k < known.len() && known[k] == chunks[j]->0;
                            assert(ids[k] == chunks[j]->0);
                        } else {
                            assert(ids[ids.len() - 1] == id);
                        }
                    }
                    assert forall|k: int| 0 <= k < ids.len() implies chunks@.contains(
                        Some(#[trigger] ids[k]),
                    ) by {
                        if k < known.len() {
                            let j = before.index_of(Some(known[k]));
                            assert(before.contains(Some(known[k])));
                            assert(chunks[j] == Some(ids[k]));
                        } else {
                            assert(chunks[i as int] == Some(ids[k]));
                        }
                    }
                }
            },
        }
        i += 1;
    }
    let sorted = sort_unique(&ids);
    let mut out: Vec<usize> = Vec::new();
    let mut k: usize = 0;
    while k < sorted.len()
        invariant
            k <= sorted.len(),
            out.len() == k,
            chunks.len() == names.len(),
            same_members(sorted@, ids@),
            forall|j: int| 0 <= j < names.len() ==> #[trigger] chunks[j] == chunk_at(names@, j),
            forall|m: int| 0 <= m < ids.len() ==> chunks@.contains(Some(#[trigger] ids[m])),
            forall|m: int|
                0 <= m < k ==> {
                    &&& #[trigger] out[m] < names.len()
                    &&& chunk_at(names@, out[m] as int) == Some(sorted[m])
                    &&& forall|j: int|
                        out[m] < j < names.len() ==> #[trigger] chunk_at(names@, j) != Some(
                            sorted[m],
                        )
                },
        decreases sorted.len() - k,
    {
        let id: i64 = sorted[k];
        let mut j: usize = chunks.len();
        proof {
            assert(sorted@.contains(id));
            assert(ids@.contains(id));
            let m = choose|m: int| 0 <= m < ids.len() && ids[m] == id;
            assert(chunks@.contains(Some(ids[m])));
        }
        let mut found: bool = false;
        while !found
            invariant
                j <= chunks.len(),
                chunks.len() == names.len(),
                forall|q: int| 0 <= q < names.len() ==> #[trigger] chunks[q] == chunk_at(names@, q),
                !found ==> exists|q: int| 0 <= q < j && #[trigger] chunks[q] == Some(id),
                !found ==> forall|q: int| j <= q < names.len() ==> #[trigger] chunks[q] != Some(id),
                found ==> j < names.len() && chunks[j as int] == Some(id) && forall|q: int|
                    j < q < names.len() ==> #[trigger] chunks[q] != Some(id),
            decreases (if found { 0int } else { 1 + j }),
        {
            j -= 1;
            match chunks[j] {
                Some(c) => {
                    if c == id {
                        found = true;
                    }
                },
                None => {},
            }
        }
        assert forall|q: int| j < q < names.len() implies #[trigger] chunk_at(names@, q) != Some(id) by {
            assert(chunks[q] != Some(id));
        }
        out.push(j);
        k += 1;
    }
    assert forall|p: int| 0 <= p < names.len() && #[trigger] chunk_at(names@, p) is Some implies exists|
        m: int,
    |
        0 <= m < out.len() && chunk_at(names@, #[trigger] out[m] as int) == chunk_at(names@, p) by {
        assert(chunks[p] is Some);
        assert(ids@.contains(chunks[p]->0));
        assert(sorted@.contains(chunks[p]->0));
        let m = choose|m: int| 0 <= m < sorted.len() && sorted[m] == chunks[p]->0;
        assert(chunk_at(names@, out[m] as int) == chunk_at(names@, p));
    }
    assert forall|j: int| 0 <= j < names@.len() implies chunk_of_name(#[trigger] names@[j]@) == Ok::<
        Option<i64>,
        (),
    >(chunk_at(names@, j)) by {}
    assert(is_chunk_order(names@, out@));
    assert forall|m: int, q: int|
        0 <= m < out@.len() && out@[m] < q < names@.len() implies chunk_of_name(
        #[trigger] names@[q]@,
    ) != chunk_of_name(names@[#[trigger] out@[m] as int]@) by {
        assert(chunk_at(names@, q) != chunk_at(names@, out@[m] as int));
    }
    assert forall|p: int|
        0 <= p < names@.len() && chunk_of_name(#[trigger] names@[p]@)->Ok_0 is Some implies exists|
        m: int,
    |
        0 <= m < out@.len() && chunk_of_name(names@[#[trigger] out@[m] as int]@) == chunk_of_name(
            names@[p]@,
        ) by {
        assert(chunk_at(names@, p) is Some);
        let m = choose|m: int|
            0 <= m < out@.len() && chunk_at(names@, #[trigger] out@[m] as int) == chunk_at(
                names@,
                p,
            );
        assert(chunk_of_name(names@[out@[m] as int]@) == chunk_of_name(names@[p]@));
    }
    Ok(out)
}

proof fn lemma_numbers_differ(a: Seq<char>, n: nat, m: nat, b: Seq<char>)
    requires
        a + decimal(n) + b == a + decimal(m) + b,
    ensures
        n == m,
{
    let (x, y) = (decimal(n), decimal(m));
    let (s, t) = (a + x + b, a + y + b);
    assert(s.len() == a.len() + x.len() + b.len());
    assert(t.len() == a.len() + y.len() + b.len());
    assert(s == t);
    assert forall|i: int| 0 <= i < x.len() implies x[i] == y[i] by {
        assert(s[a.len() + i] == x[i] && t[a.len() + i] == y[i]);
    }
    assert(x =~= y);
    decimal_reads_back(n);
    decimal_reads_back(m);
}

/// Chunks have files of their own: no two chunks share the name of a file.
pub proof fn chunks_have_their_own_files(
    n: usize,
    m: usize,
    codes: (String, String),
    residuals: (String, String),
    metadata: (String, String),
    doclens: (String, String),
)
    requires
        n != m,
        call_ensures(codes_file, (n,), codes.0),
        call_ensures(codes_file, (m,), codes.1),
        call_ensures(residuals_file, (n,), residuals.0),
        call_ensures(residuals_file, (m,), residuals.1),
        call_ensures(metadata_file, (n,), metadata.0),
        call_ensures(metadata_file, (m,), metadata.1),
        call_ensures(doclens_file, (n,), doclens.0),
        call_ensures(doclens_file, (m,), doclens.1),
    ensures
        codes.0@ != codes.1@,
        residuals.0@ != residuals.1@,
        metadata.0@ != metadata.1@,
        doclens.0@ != doclens.1@,
{
    let none = Seq::<char>::empty();
    assert(none + decimal(n as nat) =~= decimal(n as nat));
    assert(none + decimal(m as nat) =~= decimal(m as nat));
    if codes.0@ == codes.1@ {
        lemma_numbers_differ(none, n as nat, m as nat, ".codes.npy"@);
    }
    if residuals.0@ == residuals.1@ {
        lemma_numbers_differ(none, n as nat, m as nat, ".residuals.npy"@);
    }
    if metadata.0@ == metadata.1@ {
        lemma_numbers_differ(none, n as nat, m as nat, ".metadata.json"@);
    }
    if doclens.0@ == doclens.1@ {
        lemma_numbers_differ("doclens."@, n as nat, m as nat, ".json"@);
    }
}

} // verus!
