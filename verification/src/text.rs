//! Plain text helpers: ASCII case folding, trimming, and decimal numbers.

use vstd::prelude::*;

verus! {

/// A character with `A..Z` folded to `a..z`; every other character is itself.
pub open spec fn lower_char(c: char) -> char {
    if 'A' <= c && c <= 'Z' {
        (c as u32 + 32) as u8 as char
    } else {
        c
    }
}

/// Text with every ASCII letter in lower case.
pub open spec fn ascii_lower(s: Seq<char>) -> Seq<char> {
    Seq::new(s.len(), |i: int| lower_char(s[i]))
}

/// Characters with the Unicode property `White_Space`.
pub open spec fn is_space(c: char) -> bool {
    ||| '\u{9}' <= c && c <= '\u{d}'
    ||| c == ' '
    ||| c == '\u{85}'
    ||| c == '\u{a0}'
    ||| c == '\u{1680}'
    ||| '\u{2000}' <= c && c <= '\u{200a}'
    ||| c == '\u{2028}'
    ||| c == '\u{2029}'
    ||| c == '\u{202f}'
    ||| c == '\u{205f}'
    ||| c == '\u{3000}'
}

/// `s` without its leading white space.
pub open spec fn trim_start(s: Seq<char>) -> Seq<char>
    decreases s.len(),
{
    if s.len() > 0 && is_space(s[0]) {
        trim_start(s.skip(1))
    } else {
        s
    }
}

/// `s` without its trailing white space.
pub open spec fn trim_end(s: Seq<char>) -> Seq<char>
    decreases s.len(),
{
    if s.len() > 0 && is_space(s.last()) {
        trim_end(s.drop_last())
    } else {
        s
    }
}

/// `s` without white space at either end.
pub open spec fn trim(s: Seq<char>) -> Seq<char> {
    trim_end(trim_start(s))
}

/// An ASCII digit.
pub open spec fn is_digit(c: char) -> bool {
    '0' <= c && c <= '9'
}

/// Every character is one of `0..9`.
pub open spec fn all_digits(s: Seq<char>) -> bool {
    forall|i: int| 0 <= i < s.len() ==> is_digit(#[trigger] s[i])
}

/// The number that a digit stands for.
pub open spec fn digit_value(c: char) -> nat {
    (c as u32 - '0' as u32) as nat
}

/// The number that a run of digits denotes in base ten.
pub open spec fn decimal_value(s: Seq<char>) -> nat
    decreases s.len(),
{
    if s.len() == 0 {
        0
    } else {
        decimal_value(s.drop_last()) * 10 + digit_value(s.last())
    }
}

/// The base-ten digits of `n`, without leading zeros.
pub open spec fn decimal(n: nat) -> Seq<char>
    decreases n,
{
    if n < 10 {
        seq![digit_char(n)]
    } else {
        decimal(n / 10).push(digit_char(n % 10))
    }
}

/// The digit that stands for a number below ten.
pub open spec fn digit_char(d: nat) -> char {
    (d + '0' as u32) as u8 as char
}

/// The number that `s` denotes as an unsigned decimal: an optional `+`, then one or more digits,
/// at most `max`.
pub open spec fn unsigned_value(s: Seq<char>, max: nat) -> Option<nat> {
    let digits = if s.len() > 0 && s[0] == '+' {
        s.skip(1)
    } else {
        s
    };
    if digits.len() > 0 && all_digits(digits) && decimal_value(digits) <= max {
        Some(decimal_value(digits))
    } else {
        None
    }
}

/// Reading the digits written for a number gives the number back.
pub proof fn decimal_reads_back(n: nat)
    ensures
        all_digits(decimal(n)),
        decimal(n).len() > 0,
        decimal_value(decimal(n)) == n,
    decreases n,
{
    if n < 10 {
        let s = seq![digit_char(n)];
        assert(s.drop_last() == Seq::<char>::empty());
        assert(decimal_value(s.drop_last()) == 0);
        assert(s.last() == digit_char(n));
        lemma_digit(n);
    } else {
        decimal_reads_back(n / 10);
        let s = decimal(n / 10).push(digit_char(n % 10));
        assert(s.drop_last() == decimal(n / 10));
        assert(s.last() == digit_char(n % 10));
        lemma_digit(n % 10);
    }
}

proof fn lemma_digit(d: nat)
    requires
        d < 10,
    ensures
        is_digit(digit_char(d)),
        digit_value(digit_char(d)) == d,
{
}

/// The value of a run of digits never shrinks when digits are added.
proof fn lemma_prefix_value(s: Seq<char>, k: int)
    requires
        0 <= k <= s.len(),
    ensures
        decimal_value(s.take(k)) <= decimal_value(s),
    decreases s.len(),
{
    if k == s.len() {
        assert(s.take(k) == s);
    } else {
        lemma_prefix_value(s.drop_last(), k);
        assert(s.drop_last().take(k) == s.take(k));
        let d = decimal_value(s.drop_last());
        assert(decimal_value(s) == d * 10 + digit_value(s.last()));
    }
}

fn fold_char(c: char) -> (r: char)
    ensures
        r == lower_char(c),
{
    if 'A' <= c && c <= 'Z' {
        ((c as u32 + 32) as u8) as char
    } else {
        c
    }
}

fn space(c: char) -> (r: bool)
    ensures
        r == is_space(c),
{
    ('\u{9}' <= c && c <= '\u{d}') || c == ' ' || c == '\u{85}' || c == '\u{a0}' || c == '\u{1680}'
        || ('\u{2000}' <= c && c <= '\u{200a}') || c == '\u{2028}' || c == '\u{2029}' || c
        == '\u{202f}' || c == '\u{205f}' || c == '\u{3000}'
}

/// The characters of `s`.
pub fn chars_of(s: &str) -> (r: Vec<char>)
    ensures
        r@ == s@,
{
    let mut out: Vec<char> = Vec::new();
    for c in it: s.chars()
        invariant
            it.seq() == s@,
            out@ == s@.take(it.index() as int),
    {
        out.push(c);
        assert(out@ == s@.take(it.index() + 1));
    }
    assert(s@.take(s@.len() as int) == s@);
    out
}

/// The characters of `s` with ASCII letters in lower case.
pub fn lowercase_chars(s: &str) -> (r: Vec<char>)
    ensures
        r@ == ascii_lower(s@),
        r@.len() == s@.len(),
        forall|i: int|
            0 <= i < s@.len() && 65 <= (#[trigger] s@[i]) as u32 <= 90 ==> r@[i] as u32
                == s@[i] as u32 + 32,
        forall|i: int|
            0 <= i < s@.len() && !(65 <= (#[trigger] s@[i]) as u32 <= 90) ==> r@[i] == s@[i],
{
    lowercase(&chars_of(s))
}

fn lowercase(cs: &Vec<char>) -> (r: Vec<char>)
    ensures
        r@ == ascii_lower(cs@),
{
    let mut out: Vec<char> = Vec::new();
    let mut i: usize = 0;
    while i < cs.len()
        invariant
            i <= cs@.len(),
            out@.len() == i,
            forall|k: int| 0 <= k < i ==> out@[k] == lower_char(#[trigger] cs@[k]),
        decreases cs@.len() - i,
    {
        out.push(fold_char(cs[i]));
        i += 1;
    }
    assert(out@ =~= ascii_lower(cs@));
    out
}

/// The characters of `s` without white space at either end, in ASCII lower case.
pub fn trimmed_lowercase_chars(s: &str) -> (r: Vec<char>)
    ensures
        r@ == ascii_lower(trim(s@)),
{
    let cs = chars_of(s);
    let mut a: usize = 0;
    assert(cs@.skip(0) == cs@);
    while a < cs.len() && space(cs[a])
        invariant
            a <= cs@.len(),
            trim_start(cs@) == trim_start(cs@.skip(a as int)),
        decreases cs@.len() - a,
    {
        assert(cs@.skip(a as int).skip(1) == cs@.skip(a + 1));
        a += 1;
    }
    let ghost head = cs@.skip(a as int);
    assert(trim_start(cs@) == head);
    let mut b: usize = cs.len();
    assert(cs@.subrange(a as int, b as int) == head);
    while b > a && space(cs[b - 1])
        invariant
            a <= b <= cs@.len(),
            trim_end(head) == trim_end(cs@.subrange(a as int, b as int)),
        decreases b,
    {
        assert(cs@.subrange(a as int, b as int).drop_last() == cs@.subrange(a as int, b - 1));
        b -= 1;
    }
    let mut t: Vec<char> = Vec::new();
    let mut i: usize = a;
    while i < b
        invariant
            a <= i <= b <= cs@.len(),
            t@ == cs@.subrange(a as int, i as int),
        decreases b - i,
    {
        t.push(cs[i]);
        i += 1;
        assert(t@ =~= cs@.subrange(a as int, i as int));
    }
    lowercase(&t)
}

/// Whether `cs` spells `word`.
pub fn spells(cs: &Vec<char>, word: &str) -> (r: bool)
    ensures
        r == (cs@ == word@),
{
    let w = chars_of(word);
    if cs.len() != w.len() {
        return false;
    }
    let mut i: usize = 0;
    while i < cs.len()
        invariant
            i <= cs@.len(),
            cs@.len() == w@.len(),
            w@ == word@,
            forall|k: int| 0 <= k < i ==> cs@[k] == #[trigger] w@[k],
        decreases cs@.len() - i,
    {
        if cs[i] != w[i] {
            return false;
        }
        i += 1;
    }
    assert(cs@ =~= word@);
    true
}

/// The value of a run of digits from `from` on, when it consists of digits only, is not empty and
/// is at most `max`.
fn digits_value(cs: &Vec<char>, from: usize, max: u64) -> (r: Option<u64>)
    requires
        from <= cs@.len(),
    ensures
        r == (if cs@.len() > from && all_digits(cs@.skip(from as int)) && decimal_value(
            cs@.skip(from as int),
        ) <= max {
            Some(decimal_value(cs@.skip(from as int)) as u64)
        } else {
            None
        }),
{
    if cs.len() == from {
        return None;
    }
    let ghost ds = cs@.skip(from as int);
    let mut v: u64 = 0;
    let mut i: usize = from;
    assert(ds.take(0) == Seq::<char>::empty());
    while i < cs.len()
        invariant
            from <= i <= cs@.len(),
            ds == cs@.skip(from as int),
            v == decimal_value(ds.take(i - from)),
            v <= max,
            forall|k: int| 0 <= k < i - from ==> is_digit(#[trigger] ds[k]),
        decreases cs@.len() - i,
    {
        let c: char = cs[i];
        assert(ds[i - from] == c);
        assert(ds.take(i - from + 1).drop_last() == ds.take(i - from));
        assert(ds.take(i - from + 1).last() == c);
        if !('0' <= c && c <= '9') {
            assert(!is_digit(ds[i - from]));
            return None;
        }
        let d: u64 = (c as u32 - '0' as u32) as u64;
        let wide: u128 = (v as u128) * 10 + (d as u128);
        assert(wide == decimal_value(ds.take(i - from + 1)));
        if wide > max as u128 {
            proof {
                lemma_prefix_value(ds, i - from + 1);
            }
            return None;
        }
        v = wide as u64;
        i += 1;
    }
    assert(ds.take(ds.len() as int) == ds);
    Some(v)
}

/// Reads an unsigned number as `str::parse::<usize>` does.
pub fn parse_usize(s: &str) -> (r: Option<usize>)
    ensures
        r == (match unsigned_value(s@, usize::MAX as nat) {
            Some(v) => Some(v as usize),
            None => None,
        }),
{
    let cs = chars_of(s);
    let from: usize = if cs.len() > 0 && cs[0] == '+' {
        1
    } else {
        0
    };
    assert(cs@.skip(0) == cs@);
    match digits_value(&cs, from, usize::MAX as u64) {
        Some(v) => Some(v as usize),
        None => None,
    }
}

/// Reads a run of digits as a non-negative `i64`: nothing when it is empty, holds anything but
/// digits, or denotes a number above `i64::MAX`.
pub fn parse_digits_i64(s: &str) -> (r: Option<i64>)
    ensures
        r == (if s@.len() > 0 && all_digits(s@) && decimal_value(s@) <= i64::MAX {
            Some(decimal_value(s@) as i64)
        } else {
            None
        }),
{
    let cs = chars_of(s);
    assert(cs@.skip(0) == cs@);
    match digits_value(&cs, 0, i64::MAX as u64) {
        Some(v) => Some(v as i64),
        None => None,
    }
}

fn digit_text(d: usize) -> (r: &'static str)
    requires
        d < 10,
    ensures
        r@ == seq![digit_char(d as nat)],
{
    proof {
        reveal_strlit("0");
        reveal_strlit("1");
        reveal_strlit("2");
        reveal_strlit("3");
        reveal_strlit("4");
        reveal_strlit("5");
        reveal_strlit("6");
        reveal_strlit("7");
        reveal_strlit("8");
        reveal_strlit("9");
    }
    let r: &'static str = if d == 0 {
        "0"
    } else if d == 1 {
        "1"
    } else if d == 2 {
        "2"
    } else if d == 3 {
        "3"
    } else if d == 4 {
        "4"
    } else if d == 5 {
        "5"
    } else if d == 6 {
        "6"
    } else if d == 7 {
        "7"
    } else if d == 8 {
        "8"
    } else {
        "9"
    };
    assert(r@ =~= seq![digit_char(d as nat)]);
    r
}

/// Writes `n` in base ten at the end of `out`.
pub fn push_decimal(out: &mut String, n: usize)
    ensures
        final(out)@ == old(out)@ + decimal(n as nat),
    decreases n,
{
    let ghost before = out@;
    if n >= 10 {
        push_decimal(out, n / 10);
    }
    out.append(digit_text(n % 10));
    assert(out@ =~= before + decimal(n as nat));
}

/// Folding moves the letters from `A` to `Z` by the distance between the cases, and leaves every
/// other character alone.
pub proof fn folding_moves_capital_letters(s: Seq<char>, i: int)
    requires
        0 <= i < s.len(),
    ensures
        ascii_lower(s).len() == s.len(),
        65 <= s[i] as u32 <= 90 ==> ascii_lower(s)[i] as u32 == s[i] as u32 + 32,
        !(65 <= s[i] as u32 <= 90) ==> ascii_lower(s)[i] == s[i],
{
}

/// White space by its code points.
pub proof fn white_space_by_code_point(c: char)
    ensures
        is_space(c) <==> {
            let n = c as u32;
            ||| 9 <= n <= 13
            ||| n == 32
            ||| n == 0x85
            ||| n == 0xa0
            ||| n == 0x1680
            ||| 0x2000 <= n <= 0x200a
            ||| n == 0x2028
            ||| n == 0x2029
            ||| n == 0x202f
            ||| n == 0x205f
            ||| n == 0x3000
        },
{
}

proof fn lemma_trim_start(s: Seq<char>) -> (a: int)
    ensures
        0 <= a <= s.len(),
        trim_start(s) == s.skip(a),
        forall|i: int| 0 <= i < a ==> is_space(#[trigger] s[i]),
        a < s.len() ==> !is_space(s[a]),
    decreases s.len(),
{
    if s.len() > 0 && is_space(s[0]) {
        let b = lemma_trim_start(s.skip(1));
        assert(s.skip(1).skip(b) =~= s.skip(b + 1));
        assert forall|i: int| 0 <= i < b + 1 implies is_space(#[trigger] s[i]) by {
            if i > 0 {
                assert(s.skip(1)[i - 1] == s[i]);
            }
        }
        b + 1
    } else {
        assert(s.skip(0) =~= s);
        0
    }
}

proof fn lemma_trim_end(s: Seq<char>) -> (b: int)
    ensures
        0 <= b <= s.len(),
        trim_end(s) == s.take(b),
        forall|i: int| b <= i < s.len() ==> is_space(#[trigger] s[i]),
        0 < b ==> !is_space(s[b - 1]),
    decreases s.len(),
{
    if s.len() > 0 && is_space(s.last()) {
        let b = lemma_trim_end(s.drop_last());
        assert(s.drop_last().take(b) =~= s.take(b));
        assert forall|i: int| b <= i < s.len() implies is_space(#[trigger] s[i]) by {
            if i < s.len() - 1 {
                assert(s.drop_last()[i] == s[i]);
            }
        }
        b
    } else {
        assert(s.take(s.len() as int) =~= s);
        s.len() as int
    }
}

/// Trimming cuts off white space at both ends and nothing else, and leaves none there.
pub proof fn trimming_cuts_the_ends(s: Seq<char>)
    ensures
        exists|a: int, b: int|
            {
                &&& 0 <= a <= b <= s.len()
                &&& trim(s) == #[trigger] s.subrange(a, b)
                &&& forall|i: int| 0 <= i < a ==> is_space(#[trigger] s[i])
                &&& forall|i: int| b <= i < s.len() ==> is_space(#[trigger] s[i])
            },
        trim(s).len() > 0 ==> !is_space(trim(s)[0]) && !is_space(trim(s).last()),
{
    let a = lemma_trim_start(s);
    let rest = s.skip(a);
    let n = lemma_trim_end(rest);
    assert(rest.take(n) =~= s.subrange(a, a + n));
    assert forall|i: int| a + n <= i < s.len() implies is_space(#[trigger] s[i]) by {
        assert(rest[i - a] == s[i]);
    }
}

/// The text of a number ends in the digit that is left when it is divided by ten; before it stands
/// the text of the quotient, or nothing.
pub proof fn numbers_are_written_by_their_digits(n: nat)
    ensures
        decimal(n).len() > 0,
        decimal(n).last() as u32 == 48 + n % 10,
        n < 10 ==> decimal(n).len() == 1,
        n >= 10 ==> decimal(n).drop_last() == decimal(n / 10),
        n > 0 ==> decimal(n)[0] as u32 > 48,
    decreases n,
{
    if n >= 10 {
        numbers_are_written_by_their_digits(n / 10);
        assert(decimal(n).drop_last() =~= decimal(n / 10));
        assert(decimal(n)[0] == decimal(n / 10)[0]);
    }
}

/// Digits are the characters from code 48 to code 57, and stand for their distance from the first. A
/// digit written behind others multiplies their value by ten and adds its own.
pub proof fn digits_are_read_in_base_ten(s: Seq<char>, c: char)
    ensures
        is_digit(c) <==> 48 <= c as u32 <= 57,
        decimal_value(Seq::empty()) == 0,
        is_digit(c) ==> decimal_value(s.push(c)) == 10 * decimal_value(s) + (c as u32 - 48),
{
    assert(s.push(c).drop_last() =~= s);
    assert(s.push(c).last() == c);
}

/// An unsigned number is read from digits, with or without a plus sign before them, as long as it is
/// not too large; from nothing else.
pub proof fn unsigned_numbers_are_digits(s: Seq<char>, max: nat)
    ensures
        s.len() > 0 && all_digits(s) && decimal_value(s) <= max ==> unsigned_value(s, max) == Some(
            decimal_value(s),
        ),
        s.len() > 0 && all_digits(s) && decimal_value(s) <= max ==> unsigned_value(
            seq!['+'] + s,
            max,
        ) == Some(decimal_value(s)),
        unsigned_value(s, max) matches Some(v) ==> v <= max && exists|d: Seq<char>|
            {
                &&& d.len() > 0
                &&& all_digits(d)
                &&& #[trigger] decimal_value(d) == v
                &&& s == d || s == seq!['+'] + d
            },
{
    if s.len() > 0 && all_digits(s) {
        assert(is_digit(s[0]));
        assert((seq!['+'] + s).skip(1) =~= s);
        assert((seq!['+'] + s)[0] == '+');
    }
    if unsigned_value(s, max) is Some {
        let d = if s.len() > 0 && s[0] == '+' {
            s.skip(1)
        } else {
            s
        };
        if s.len() > 0 && s[0] == '+' {
            assert(s =~= seq!['+'] + d);
        }
        assert(decimal_value(d) == unsigned_value(s, max)->0);
    }
}

/// A number is read back from its own text, as long as it is not too large.
pub proof fn written_numbers_are_read_back(
    text: &str,
    n: nat,
    unsigned: Option<usize>,
    signed: Option<i64>,
)
    requires
        text@ == decimal(n),
        call_ensures(parse_usize, (text,), unsigned),
        call_ensures(parse_digits_i64, (text,), signed),
    ensures
        n <= usize::MAX ==> unsigned is Some && unsigned->0 == n,
        n > usize::MAX ==> unsigned is None,
        n <= i64::MAX ==> signed is Some && signed->0 == n,
        n > i64::MAX ==> signed is None,
{
    decimal_reads_back(n);
    assert(is_digit(decimal(n)[0]));
}

/// A run of digits is read by its value, and a text with anything else in it is no number.
pub proof fn digits_alone_are_read(text: &str, i: int, signed: Option<i64>)
    requires
        0 <= i < text@.len(),
        call_ensures(parse_digits_i64, (text,), signed),
    ensures
        !('0' <= text@[i] && text@[i] <= '9') ==> signed is None,
        signed matches Some(v) ==> v == decimal_value(text@),
{
}

} // verus!
