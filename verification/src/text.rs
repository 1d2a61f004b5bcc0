//! Character-level helpers for reading and writing names and numbers:
//! splitting, trimming, case-insensitive matching, decimal parsing and
//! printing, with their specifications.
use vstd::prelude::*;

verus! {

/// The characters of `s`.
pub fn chars_of(s: &str) -> (v: Vec<char>)
    ensures
        v@ == s@,
{
    let n = s.unicode_len();
    let mut v: Vec<char> = Vec::new();
    for i in 0..n
        invariant
            n == s@.len(),
            v@ == s@.take(i as int),
    {
        v.push(s.get_char(i));
        assert(v@ =~= s@.take(i + 1));
    }
    assert(s@.take(n as int) =~= s@);
    v
}

/// Whether `s[lo..hi]` spells exactly `word`.
pub fn range_is(s: &Vec<char>, lo: usize, hi: usize, word: &str) -> (b: bool)
    requires
        lo <= hi <= s@.len(),
    ensures
        b == (s@.subrange(lo as int, hi as int) == word@),
{
    let n = word.unicode_len();
    if hi - lo != n {
        return false;
    }
    for i in 0..n
        invariant
            n == word@.len(),
            hi - lo == n,
            lo <= hi <= s@.len(),
            forall|t: int| 0 <= t < i ==> s@[lo + t] == word@[t],
    {
        if s[lo + i] != word.get_char(i) {
            assert(s@.subrange(lo as int, hi as int)[i as int] != word@[i as int]);
            return false;
        }
    }
    assert(s@.subrange(lo as int, hi as int) =~= word@);
    true
}

/// Whether `s` begins with `word`.
pub fn starts_with(s: &Vec<char>, word: &str) -> (b: bool)
    ensures
        b == (word@.len() <= s@.len() && s@.subrange(0, word@.len() as int) == word@),
{
    let n = word.unicode_len();
    if n > s.len() {
        return false;
    }
    range_is(s, 0, n, word)
}

/// Unicode `White_Space`, the set `char::is_whitespace` tests.
pub open spec fn is_ws(c: char) -> bool {
    let u = c as u32;
    ||| 0x09 <= u <= 0x0D
    ||| u == 0x20
    ||| u == 0x85
    ||| u == 0xA0
    ||| u == 0x1680
    ||| 0x2000 <= u <= 0x200A
    ||| u == 0x2028
    ||| u == 0x2029
    ||| u == 0x202F
    ||| u == 0x205F
    ||| u == 0x3000
}

fn exec_is_ws(c: char) -> (b: bool)
    ensures
        b == is_ws(c),
{
    let u = c as u32;
    (0x09 <= u && u <= 0x0D) || u == 0x20 || u == 0x85 || u == 0xA0 || u == 0x1680 || (0x2000 <= u
        && u <= 0x200A) || u == 0x2028 || u == 0x2029 || u == 0x202F || u == 0x205F || u == 0x3000
}

/// `s` without leading and trailing whitespace.
pub open spec fn trim(s: Seq<char>) -> Seq<char>
    decreases s.len(),
{
    if s.len() == 0 {
        s
    } else if is_ws(s[0]) {
        trim(s.skip(1))
    } else if is_ws(s.last()) {
        trim(s.drop_last())
    } else {
        s
    }
}

proof fn lemma_trim(s: Seq<char>, lo: int, hi: int)
    requires
        0 <= lo <= hi <= s.len(),
        forall|i: int| 0 <= i < lo ==> is_ws(#[trigger] s[i]),
        forall|i: int| hi <= i < s.len() ==> is_ws(#[trigger] s[i]),
        lo < hi ==> !is_ws(s[lo]) && !is_ws(s[hi - 1]),
        lo == hi ==> forall|i: int| 0 <= i < s.len() ==> is_ws(#[trigger] s[i]),
    ensures
        trim(s) == s.subrange(lo, hi),
    decreases s.len(),
{
    if s.len() == 0 {
        assert(s.subrange(lo, hi) =~= s);
    } else if is_ws(s[0]) {
        let t = s.skip(1);
        if lo == hi {
            lemma_trim(t, 0, 0);
            assert(s.subrange(lo, hi) =~= t.subrange(0, 0));
        } else {
            lemma_trim(t, lo - 1, hi - 1);
            assert(s.subrange(lo, hi) =~= t.subrange(lo - 1, hi - 1));
        }
    } else if is_ws(s.last()) {
        let t = s.drop_last();
        lemma_trim(t, lo, hi);
        assert(s.subrange(lo, hi) =~= t.subrange(lo, hi));
    } else {
        assert(s.subrange(lo, hi) =~= s);
    }
}

/// The bounds of `s[lo..hi]` with surrounding whitespace removed.
pub fn trim_range(s: &Vec<char>, lo: usize, hi: usize) -> (r: (usize, usize))
    requires
        lo <= hi <= s@.len(),
    ensures
        lo <= r.0 <= r.1 <= hi,
        s@.subrange(r.0 as int, r.1 as int) == trim(s@.subrange(lo as int, hi as int)),
{
    let ghost t = s@.subrange(lo as int, hi as int);
    let mut a = lo;
    while a < hi && exec_is_ws(s[a])
        invariant
            lo <= a <= hi <= s@.len(),
            forall|i: int| lo <= i < a ==> is_ws(#[trigger] s@[i]),
        decreases hi - a,
    {
        a = a + 1;
    }
    let mut b = hi;
    while b > a && exec_is_ws(s[b - 1])
        invariant
            lo <= a <= b <= hi <= s@.len(),
            forall|i: int| lo <= i < a ==> is_ws(#[trigger] s@[i]),
            forall|i: int| b <= i < hi ==> is_ws(#[trigger] s@[i]),
            a < hi ==> !is_ws(s@[a as int]),
        decreases b - a,
    {
        b = b - 1;
    }
    proof {
        assert forall|i: int| 0 <= i < a - lo implies is_ws(#[trigger] t[i]) by {
            assert(t[i] == s@[lo + i]);
        }
        assert forall|i: int| b - lo <= i < t.len() implies is_ws(#[trigger] t[i]) by {
            assert(t[i] == s@[lo + i]);
        }
        if a == b {
            assert forall|i: int| 0 <= i < t.len() implies is_ws(#[trigger] t[i]) by {
                assert(t[i] == s@[lo + i]);
            }
        } else {
            assert(t[a - lo] == s@[a as int]);
            assert(t[b - lo - 1] == s@[b - 1]);
        }
        lemma_trim(t, a - lo, b - lo);
        assert(t.subrange(a - lo, b - lo) =~= s@.subrange(a as int, b as int));
    }
    (a, b)
}

/// Index of the first `sep` in `s`, if any.
pub open spec fn first_sep(s: Seq<char>, sep: char) -> int {
    choose|i: int| 0 <= i < s.len() && s[i] == sep && forall|j: int| 0 <= j < i ==> s[j] != sep
}

/// `s` split at every `sep`, like `str::split` with a `char` pattern:
/// `k` separators give `k + 1` pieces, empty pieces included.
#[verifier::opaque]
pub open spec fn split_on(s: Seq<char>, sep: char) -> Seq<Seq<char>>
    decreases s.len(),
{
    if s.contains(sep) {
        let i = first_sep(s, sep);
        if 0 <= i < s.len() {
            seq![s.take(i)] + split_on(s.skip(i + 1), sep)
        } else {
            seq![s]
        }
    } else {
        seq![s]
    }
}

proof fn lemma_split_none(s: Seq<char>, sep: char)
    requires
        !s.contains(sep),
    ensures
        split_on(s, sep) == seq![s],
{
    reveal(split_on);
}

proof fn lemma_split_first(s: Seq<char>, sep: char, i: int)
    requires
        0 <= i < s.len(),
        s[i] == sep,
        forall|j: int| 0 <= j < i ==> s[j] != sep,
    ensures
        split_on(s, sep) == seq![s.take(i)] + split_on(s.skip(i + 1), sep),
{
    reveal(split_on);
    assert(s[i] == sep);
    assert(s.contains(sep));
    let f = first_sep(s, sep);
    assert(exists|k: int| 0 <= k < s.len() && s[k] == sep && forall|j: int| 0 <= j < k ==> s[j] != sep);
    assert(f == i) by {
        if f < i {
            assert(s[f] == sep);
        } else if f > i {
            assert(s[i] != sep);
        }
    }
}

/// Each range `r[k]` lies within `s[..bound]` and spells `pieces[k]`.
pub open spec fn ranges_spell(
    s: Seq<char>,
    r: Seq<(usize, usize)>,
    pieces: Seq<Seq<char>>,
    bound: int,
) -> bool {
    &&& r.len() == pieces.len()
    &&& forall|k: int|
        0 <= k < r.len() ==> #[trigger] r[k].0 <= r[k].1 <= bound && s.subrange(
            r[k].0 as int,
            r[k].1 as int,
        ) == pieces[k]
}

proof fn lemma_ranges_push(
    s: Seq<char>,
    r: Seq<(usize, usize)>,
    pieces: Seq<Seq<char>>,
    bound: int,
    lo: usize,
    hi: usize,
    new_bound: int,
)
    requires
        ranges_spell(s, r, pieces, bound),
        bound <= new_bound,
        lo <= hi <= new_bound,
        hi <= s.len(),
    ensures
        ranges_spell(s, r.push((lo, hi)), pieces.push(s.subrange(lo as int, hi as int)), new_bound),
{
    let r2 = r.push((lo, hi));
    let p2 = pieces.push(s.subrange(lo as int, hi as int));
    assert forall|k: int| 0 <= k < r2.len() implies #[trigger] r2[k].0 <= r2[k].1 <= new_bound
        && s.subrange(r2[k].0 as int, r2[k].1 as int) == p2[k] by {
        if k < r.len() {
            assert(r2[k] == r[k]);
            assert(p2[k] == pieces[k]);
            assert(r[k].0 <= r[k].1 <= bound);
            assert(s.subrange(r[k].0 as int, r[k].1 as int) == pieces[k]);
        } else {
            assert(r2[k] == (lo, hi));
            assert(p2[k] == s.subrange(lo as int, hi as int));
        }
    }
}

/// The pieces of `s` between occurrences of `sep`, as index ranges.
pub fn split_ranges(s: &Vec<char>, sep: char) -> (r: Vec<(usize, usize)>)
    ensures
        ranges_spell(s@, r@, split_on(s@, sep), s@.len() as int),
{
    let n = s.len();
    let mut r: Vec<(usize, usize)> = Vec::new();
    let mut start: usize = 0;
    let ghost mut pieces: Seq<Seq<char>> = Seq::empty();
    assert(s@.skip(0) =~= s@);
    assert(pieces + split_on(s@, sep) =~= split_on(s@, sep));
    for i in 0..n
        invariant
            n == s@.len(),
            start <= i,
            forall|j: int| start <= j < i ==> s@[j] != sep,
            ranges_spell(s@, r@, pieces, start as int),
            split_on(s@, sep) == pieces + split_on(s@.skip(start as int), sep),
    {
        if s[i] == sep {
            proof {
                let tail = s@.skip(start as int);
                lemma_split_first(tail, sep, i - start);
                assert(tail.take(i - start) =~= s@.subrange(start as int, i as int));
                assert(tail.skip(i - start + 1) =~= s@.skip(i + 1));
                assert(pieces + split_on(tail, sep) =~= pieces.push(
                    s@.subrange(start as int, i as int),
                ) + split_on(s@.skip(i + 1), sep));
                lemma_ranges_push(s@, r@, pieces, start as int, start, i, i + 1);
                pieces = pieces.push(s@.subrange(start as int, i as int));
            }
            r.push((start, i));
            start = i + 1;
        }
    }
    proof {
        let tail = s@.skip(start as int);
        assert(!tail.contains(sep)) by {
            if tail.contains(sep) {
                let j = choose|j: int| 0 <= j < tail.len() && tail[j] == sep;
                assert(s@[start + j] == sep);
            }
        }
        lemma_split_none(tail, sep);
        assert(tail =~= s@.subrange(start as int, n as int));
        assert(split_on(s@, sep) =~= pieces.push(tail));
        lemma_ranges_push(s@, r@, pieces, start as int, start, n, n as int);
    }
    r.push((start, n));
    r
}

/// Why a string is not a `usize`: the kinds of `core::num::IntErrorKind`
/// that unsigned parsing can give.
#[derive(Clone, Copy, Debug, PartialEq, Eq, Structural)]
pub enum NumberError {
    /// The string is empty.
    Empty,
    /// A character is not an ASCII digit (a lone sign counts as one).
    InvalidDigit,
    /// The value does not fit in `usize`.
    PosOverflow,
}

/// The digit value of an ASCII digit.
pub open spec fn digit_value(c: char) -> int {
    c as int - '0' as int
}

/// Reading `body` from position `i` on, with `acc` the value read so far,
/// left to right: the first character that is not an ASCII digit is an
/// error, and so is the first digit that takes the value past
/// `usize::MAX`, whichever comes first.
pub open spec fn scan_digits(body: Seq<char>, i: int, acc: int) -> Result<usize, NumberError>
    decreases body.len() - i,
{
    if i >= body.len() {
        Ok(acc as usize)
    } else if !('0' <= body[i] <= '9') {
        Err(NumberError::InvalidDigit)
    } else if acc * 10 + digit_value(body[i]) > usize::MAX {
        Err(NumberError::PosOverflow)
    } else {
        scan_digits(body, i + 1, acc * 10 + digit_value(body[i]))
    }
}

/// What `s.parse::<usize>()` gives: an optional leading `+`, then ASCII
/// digits whose value fits in `usize`.
pub open spec fn parse_usize(s: Seq<char>) -> Result<usize, NumberError> {
    if s.len() == 0 {
        Err(NumberError::Empty)
    } else if s.len() == 1 && (s[0] == '+' || s[0] == '-') {
        Err(NumberError::InvalidDigit)
    } else if s[0] == '+' {
        scan_digits(s, 1, 0)
    } else {
        scan_digits(s, 0, 0)
    }
}

/// Parse `s[lo..hi]` like `str::parse::<usize>`.
pub fn parse_usize_range(s: &Vec<char>, lo: usize, hi: usize) -> (r: Result<usize, NumberError>)
    requires
        lo <= hi <= s@.len(),
    ensures
        r == parse_usize(s@.subrange(lo as int, hi as int)),
{
    let ghost t = s@.subrange(lo as int, hi as int);
    if lo == hi {
        return Err(NumberError::Empty);
    }
    if hi - lo == 1 && (s[lo] == '+' || s[lo] == '-') {
        return Err(NumberError::InvalidDigit);
    }
    let start = if s[lo] == '+' {
        lo + 1
    } else {
        lo
    };
    let mut value: usize = 0;
    let mut i = start;
    while i < hi
        invariant
            lo <= start <= i <= hi <= s@.len(),
            t == s@.subrange(lo as int, hi as int),
            parse_usize(t) == scan_digits(t, i - lo, value as int),
        decreases hi - i,
    {
        let c = s[i];
        assert(t[i - lo] == c);
        if c < '0' || c > '9' {
            return Err(NumberError::InvalidDigit);
        }
        let d = (c as u32 - '0' as u32) as usize;
        assert(d as int == digit_value(c));
        proof {
            assert((value > (usize::MAX - d) / 10) == (value * 10 + d > usize::MAX))
                by (nonlinear_arith)
                requires
                    d <= 9,
            ;
        }
        if value > (usize::MAX - d) / 10 {
            return Err(NumberError::PosOverflow);
        }
        value = value * 10 + d;
        i = i + 1;
    }
    Ok(value)
}

/// The decimal digits of `n`, most significant first, without leading
/// zeros (`"0"` for zero).
pub open spec fn decimal(n: nat) -> Seq<char>
    decreases n,
{
    if n < 10 {
        seq![digit_char(n)]
    } else {
        decimal(n / 10).push(digit_char(n % 10))
    }
}

/// The ASCII digit for `d < 10`.
pub open spec fn digit_char(d: nat) -> char {
    (d + '0' as nat) as char
}

fn digit_str(d: usize) -> (s: &'static str)
    requires
        d < 10,
    ensures
        s@ == seq![digit_char(d as nat)],
{
    proof {
        reveal_strlit("0");
        reveal_strlit("1");
        reveal_strlit("2");
        reveal_strlit("3");
        reveal_strlit("4");
        reveal_strlit("5");
        reveal_strlit("6");
        reveal_strlit("7");
        reveal_strlit("8");
        reveal_strlit("9");
    }
    if d == 0 {
        "0"
    } else if d == 1 {
        "1"
    } else if d == 2 {
        "2"
    } else if d == 3 {
        "3"
    } else if d == 4 {
        "4"
    } else if d == 5 {
        "5"
    } else if d == 6 {
        "6"
    } else if d == 7 {
        "7"
    } else if d == 8 {
        "8"
    } else {
        "9"
    }
}

/// Append the decimal digits of `n`.
pub fn push_decimal(out: &mut String, n: usize)
    ensures
        final(out)@ == old(out)@ + decimal(n as nat),
    decreases n,
{
    if n >= 10 {
        push_decimal(out, n / 10);
    }
    out.append(digit_str(n % 10));
    proof {
        if n >= 10 {
            assert(decimal(n as nat) == decimal((n / 10) as nat).push(digit_char((n % 10) as nat)));
        }
    }
    assert(final(out)@ =~= old(out)@ + decimal(n as nat));
}

/// The code of `c` lowercased if it is an ASCII capital letter, as
/// `char::to_ascii_lowercase` does; other characters keep their code.
pub open spec fn lower_code(c: char) -> u32 {
    let u = c as u32;
    if 0x41 <= u <= 0x5A {
        (u + 32) as u32
    } else {
        u
    }
}

/// `s` lowercased in ASCII spells `word`.
pub open spec fn lower_is(s: Seq<char>, word: Seq<char>) -> bool {
    &&& s.len() == word.len()
    &&& forall|i: int| 0 <= i < s.len() ==> #[trigger] lower_code(s[i]) == word[i] as u32
}

/// `t` is `s` lowercased in ASCII, as `str::to_ascii_lowercase` makes it:
/// each capital letter `A`..`Z` becomes its small letter, every other
/// character stays.
pub open spec fn is_ascii_lowercase_of(t: Seq<char>, s: Seq<char>) -> bool {
    &&& t.len() == s.len()
    &&& forall|i: int|
        0 <= i < s.len() ==> if 'A' <= #[trigger] s[i] <= 'Z' {
            t[i] as u32 == s[i] as u32 + 32
        } else {
            t[i] == s[i]
        }
}

/// Lowercasing a string first does not change which word it spells
/// case-insensitively.
pub proof fn lemma_lower_is_lowercase(s: Seq<char>, t: Seq<char>, word: Seq<char>)
    requires
        is_ascii_lowercase_of(t, s),
    ensures
        lower_is(s, word) == lower_is(t, word),
{
    assert forall|i: int| 0 <= i < s.len() implies lower_code(t[i]) == lower_code(s[i]) by {
        if 'A' <= s[i] <= 'Z' {
            assert(t[i] as u32 == s[i] as u32 + 32);
        } else {
            assert(t[i] == s[i]);
        }
    }
    if lower_is(s, word) {
        assert forall|i: int| 0 <= i < t.len() implies #[trigger] lower_code(t[i]) == word[i] as u32 by {
            assert(lower_code(s[i]) == word[i] as u32);
        }
    }
    if lower_is(t, word) {
        assert forall|i: int| 0 <= i < s.len() implies #[trigger] lower_code(s[i]) == word[i] as u32 by {
            assert(lower_code(t[i]) == word[i] as u32);
        }
    }
}

/// Whether `s`, lowercased in ASCII, spells `word`.
pub fn lower_equals(s: &Vec<char>, word: &str) -> (b: bool)
    ensures
        b == lower_is(s@, word@),
{
    let n = word.unicode_len();
    if s.len() != n {
        return false;
    }
    for i in 0..n
        invariant
            n == word@.len(),
            n == s@.len(),
            forall|t: int| 0 <= t < i ==> #[trigger] lower_code(s@[t]) == word@[t] as u32,
    {
        let u = s[i] as u32;
        let lowered = if 0x41 <= u && u <= 0x5A {
            u + 32
        } else {
            u
        };
        if lowered != word.get_char(i) as u32 {
            assert(lower_code(s@[i as int]) != word@[i as int] as u32);
            return false;
        }
    }
    true
}

} // verus!
