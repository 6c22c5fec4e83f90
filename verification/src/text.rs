//! Character-level helpers on strings, with their mathematical models.
//!
//! Strings are modelled by their view, a `Seq<char>`.  The helpers here
//! build strings piece by piece, search for patterns, split, trim and
//! render numbers, each against a spec function that says what the result is.

use vstd::prelude::*;
use vstd::string::*;
use vstd::utf8::is_ascii_chars;

verus! {

// ---------------------------------------------------------------------
// Trusted items from std
// ---------------------------------------------------------------------

/// What `str::to_lowercase` returns: the full Unicode lowercase mapping of
/// the text, a function of the text alone.
pub uninterp spec fn lowercase(s: Seq<char>) -> Seq<char>;

/// A character with the ASCII capitals `A` to `Z` turned into `a` to `z`
/// (what `char::to_ascii_lowercase` gives).
pub open spec fn ascii_lower_char(c: char) -> char {
    if 'A' <= c && c <= 'Z' {
        ((c as nat) + 32) as char
    } else {
        c
    }
}

/// A character with `a` to `z` turned into `A` to `Z` (what
/// `char::to_ascii_uppercase` gives).
pub open spec fn ascii_upper_char(c: char) -> char {
    if 'a' <= c && c <= 'z' {
        ((c as nat) - 32) as char
    } else {
        c
    }
}

/// The text with its ASCII capitals in lower case (`str::to_ascii_lowercase`).
pub open spec fn ascii_lowercase(s: Seq<char>) -> Seq<char> {
    s.map_values(|c: char| ascii_lower_char(c))
}

/// The text with its ASCII small letters in upper case
/// (`str::to_ascii_uppercase`).
pub open spec fn ascii_uppercase(s: Seq<char>) -> Seq<char> {
    s.map_values(|c: char| ascii_upper_char(c))
}

/// Calls `str::to_lowercase`; the result is named [`lowercase`] of the text.
/// On an ASCII text the Unicode lowercase mapping is the ASCII one, `A` to
/// `Z` becoming `a` to `z` and every other character staying as it is (the
/// documentation of `str::to_ascii_lowercase` points to `to_lowercase` as
/// the function that lowers non-ASCII letters in addition).
#[verifier::external_body]
pub(crate) fn to_lowercase(s: &str) -> (res: String)
    ensures
        res@ == lowercase(s@),
        is_ascii_chars(s@) ==> res@ == ascii_lowercase(s@),
{
    s.to_lowercase()
}

/// Calls `String::push`, which appends one character at the end.
#[verifier::external_body]
pub(crate) fn push_char(s: &mut String, c: char)
    ensures
        final(s)@ == old(s)@.push(c),
{
    s.push(c)
}

// ---------------------------------------------------------------------
// Building strings
// ---------------------------------------------------------------------

/// The characters of `s`, in order.
pub fn chars_of(s: &str) -> (v: Vec<char>)
    ensures
        v@ == s@,
{
    let mut v: Vec<char> = Vec::new();
    for c in it: s.chars()
        invariant
            v@ == it.seq().take(it.index() as int),
            it.seq() == s@,
    {
        v.push(c);
    }
    v
}

/// Appends the characters of `v[from..to]` to `s`.
pub fn push_chars(s: &mut String, v: &Vec<char>, from: usize, to: usize)
    requires
        from <= to <= v@.len(),
    ensures
        final(s)@ == old(s)@ + v@.subrange(from as int, to as int),
{
    let mut i = from;
    while i < to
        invariant
            from <= i <= to <= v@.len(),
            s@ == old(s)@ + v@.subrange(from as int, i as int),
        decreases to - i,
    {
        push_char(s, v[i]);
        assert(v@.subrange(from as int, i + 1) == v@.subrange(from as int, i as int).push(v@[i as int]));
        i = i + 1;
    }
}

/// A string holding the characters of `v[from..to]`.
pub fn string_of_chars(v: &Vec<char>, from: usize, to: usize) -> (s: String)
    requires
        from <= to <= v@.len(),
    ensures
        s@ == v@.subrange(from as int, to as int),
{
    let mut s = String::new();
    push_chars(&mut s, v, from, to);
    s
}

// ---------------------------------------------------------------------
// Searching
// ---------------------------------------------------------------------

/// `p` occurs in `h` starting at index `i`.
pub open spec fn match_at(h: Seq<char>, p: Seq<char>, i: int) -> bool {
    0 <= i && i + p.len() <= h.len() && h.subrange(i, i + p.len()) == p
}

/// `p` occurs somewhere in `h` (what `str::contains` answers).
pub open spec fn contains(h: Seq<char>, p: Seq<char>) -> bool {
    exists|i: int| match_at(h, p, i)
}

/// The first index at or after `from` where `p` occurs in `h`.
pub open spec fn first_match(h: Seq<char>, p: Seq<char>, from: int) -> Option<int>
    decreases h.len() + 1 - from,
{
    if from < 0 || from + p.len() > h.len() {
        None
    } else if match_at(h, p, from) {
        Some(from)
    } else {
        first_match(h, p, from + 1)
    }
}

/// What `first_match` answers, stated without recursion.
pub proof fn lemma_first_match(h: Seq<char>, p: Seq<char>, from: int)
    requires
        0 <= from,
    ensures
        first_match(h, p, from) matches Some(i) ==> from <= i && match_at(h, p, i) && forall|j: int|
            from <= j < i ==> !match_at(h, p, j),
        first_match(h, p, from) is None ==> forall|j: int| from <= j ==> !match_at(h, p, j),
    decreases h.len() + 1 - from,
{
    if from + p.len() > h.len() {
    } else if match_at(h, p, from) {
    } else {
        lemma_first_match(h, p, from + 1);
    }
}

/// `p` occurs in `h` exactly when a first occurrence exists.
pub proof fn lemma_contains_first_match(h: Seq<char>, p: Seq<char>)
    ensures
        contains(h, p) <==> first_match(h, p, 0) is Some,
{
    lemma_first_match(h, p, 0);
}

/// The index of the first occurrence of `p[..]` in `h` at or after `from`.
pub fn find_from(h: &Vec<char>, p: &Vec<char>, from: usize) -> (r: Option<usize>)
    ensures
        r matches Some(i) ==> first_match(h@, p@, from as int) == Some(i as int),
        r is None ==> first_match(h@, p@, from as int) is None,
{
    let hl = h.len();
    let pl = p.len();
    if pl > hl {
        return None;
    }
    let mut i = from;
    while i <= hl - pl
        invariant
            from <= i,
            pl <= hl,
            hl == h@.len(),
            pl == p@.len(),
            first_match(h@, p@, from as int) == first_match(h@, p@, i as int),
        decreases hl - i,
    {
        let mut k: usize = 0;
        let mut ok = true;
        while k < pl
            invariant
                k <= pl,
                i + pl <= hl,
                hl == h@.len(),
                pl == p@.len(),
                ok == (forall|m: int| 0 <= m < k ==> h@[i + m] == p@[m]),
            decreases pl - k,
        {
            if h[i + k] != p[k] {
                ok = false;
            }
            k = k + 1;
        }
        assert(ok == match_at(h@, p@, i as int)) by {
            if ok {
                assert(h@.subrange(i as int, i + pl) =~= p@);
            } else if match_at(h@, p@, i as int) {
                assert forall|m: int| 0 <= m < pl implies h@[i + m] == p@[m] by {
                    assert(h@.subrange(i as int, i + pl)[m] == h@[i + m]);
                }
            }
        }
        if ok {
            return Some(i);
        }
        i = i + 1;
    }
    None
}

/// Whether `p` occurs in `h`.
pub fn contains_chars(h: &Vec<char>, p: &Vec<char>) -> (b: bool)
    ensures
        b == contains(h@, p@),
{
    proof {
        lemma_contains_first_match(h@, p@);
    }
    find_from(h, p, 0).is_some()
}

/// Whether the text `p` occurs in the text `h`.
pub fn str_contains(h: &str, p: &str) -> (b: bool)
    ensures
        b == contains(h@, p@),
{
    let hv = chars_of(h);
    let pv = chars_of(p);
    contains_chars(&hv, &pv)
}

/// Whether `p` occurs in `h` once both are lowercased: the case-insensitive
/// substring test that every filter of the tool uses.
pub open spec fn contains_ignoring_case(h: Seq<char>, p: Seq<char>) -> bool {
    contains(lowercase(h), lowercase(p))
}

/// Lowercases both texts and tests whether the second occurs in the first.
pub fn contains_ignore_case(h: &str, p: &str) -> (b: bool)
    ensures
        b == contains_ignoring_case(h@, p@),
{
    let hl = to_lowercase(h);
    let pl = to_lowercase(p);
    str_contains(hl.as_str(), pl.as_str())
}

// ---------------------------------------------------------------------
// Splitting
// ---------------------------------------------------------------------

/// The first piece of `s.split(pat)`: the text before the first occurrence
/// of `pat`, or all of `s` when `pat` does not occur.
pub open spec fn split_first(s: Seq<char>, pat: Seq<char>) -> Seq<char> {
    match first_match(s, pat, 0) {
        Some(i) => s.take(i),
        None => s,
    }
}

/// The second piece of `s.split(pat)`, if there is one: the text after the
/// first occurrence of `pat`, up to the next occurrence or the end.
pub open spec fn split_second(s: Seq<char>, pat: Seq<char>) -> Option<Seq<char>> {
    match first_match(s, pat, 0) {
        Some(i) => Some(split_first(s.skip(i + pat.len()), pat)),
        None => None,
    }
}

/// Computes [`split_first`] on characters.
pub fn split_first_chars(s: &Vec<char>, pat: &Vec<char>) -> (r: Vec<char>)
    ensures
        r@ == split_first(s@, pat@),
{
    match find_from(s, pat, 0) {
        Some(i) => {
            proof {
                lemma_first_match(s@, pat@, 0);
            }
            let mut r: Vec<char> = Vec::new();
            let mut k: usize = 0;
            while k < i
                invariant
                    k <= i <= s@.len(),
                    r@ == s@.take(k as int),
                decreases i - k,
            {
                r.push(s[k]);
                assert(s@.take(k + 1) == s@.take(k as int).push(s@[k as int]));
                k = k + 1;
            }
            r
        },
        None => s.clone(),
    }
}

/// Computes [`split_second`] on characters.
pub fn split_second_chars(s: &Vec<char>, pat: &Vec<char>) -> (r: Option<Vec<char>>)
    ensures
        r matches Some(v) ==> split_second(s@, pat@) == Some(v@),
        r is None ==> split_second(s@, pat@) is None,
{
    match find_from(s, pat, 0) {
        Some(i) => {
            proof {
                lemma_first_match(s@, pat@, 0);
                assert(match_at(s@, pat@, i as int));
                assert(s@.len() == s.len());
            }
            let start = i + pat.len();
            let mut rest: Vec<char> = Vec::new();
            let mut k: usize = start;
            while k < s.len()
                invariant
                    start <= k <= s@.len(),
                    rest@ == s@.subrange(start as int, k as int),
                decreases s@.len() - k,
            {
                rest.push(s[k]);
                assert(s@.subrange(start as int, k + 1) == s@.subrange(start as int, k as int).push(
                    s@[k as int],
                ));
                k = k + 1;
            }
            assert(rest@ == s@.skip(start as int));
            Some(split_first_chars(&rest, pat))
        },
        None => None,
    }
}

/// Matches in `x + y` that start at or after the end of `x` are the matches
/// in `y`, shifted by the length of `x`.
pub proof fn lemma_first_match_shift(x: Seq<char>, y: Seq<char>, p: Seq<char>, j: int)
    requires
        0 <= j,
    ensures
        first_match(x + y, p, x.len() + j) == match first_match(y, p, j) {
            Some(k) => Some(x.len() + k),
            None => None,
        },
    decreases y.len() + 1 - j,
{
    let h = x + y;
    if j + p.len() > y.len() {
    } else {
        assert(h.subrange(x.len() + j, x.len() + j + p.len()) =~= y.subrange(j, j + p.len()));
        if !match_at(y, p, j) {
            lemma_first_match_shift(x, y, p, j + 1);
        }
    }
}

/// Skipping positions where `p` does not occur leaves the first match as
/// it is.
pub proof fn lemma_first_match_skip(h: Seq<char>, p: Seq<char>, from: int, to: int)
    requires
        0 <= from <= to,
        forall|i: int| from <= i < to ==> !match_at(h, p, i),
    ensures
        first_match(h, p, from) == first_match(h, p, to),
    decreases to - from,
{
    if from < to {
        lemma_first_match_skip(h, p, from + 1, to);
    }
}

/// When `p` starts at no position of `x` in `x + y`, the first piece of
/// `x + y` is `x` followed by the first piece of `y`.
pub proof fn lemma_split_first_concat(x: Seq<char>, y: Seq<char>, p: Seq<char>)
    requires
        forall|i: int| 0 <= i < x.len() ==> !match_at(x + y, p, i),
    ensures
        split_first(x + y, p) == x + split_first(y, p),
{
    lemma_first_match_skip(x + y, p, 0, x.len() as int);
    lemma_first_match_shift(x, y, p, 0);
    match first_match(y, p, 0) {
        Some(k) => {
            lemma_first_match(y, p, 0);
            assert((x + y).take(x.len() + k) =~= x + y.take(k));
        },
        None => {},
    }
}

/// A text that begins with `p` has an empty first piece.
pub proof fn lemma_split_first_at_start(y: Seq<char>, p: Seq<char>)
    requires
        p.len() <= y.len(),
        y.subrange(0, p.len() as int) == p,
    ensures
        split_first(y, p) == Seq::<char>::empty(),
{
    assert(match_at(y, p, 0));
    assert(y.take(0) =~= Seq::<char>::empty());
}

/// A text in which `p` does not occur is its own first piece.
pub proof fn lemma_split_first_absent(y: Seq<char>, p: Seq<char>)
    requires
        !contains(y, p),
    ensures
        split_first(y, p) == y,
{
    lemma_contains_first_match(y, p);
}

/// The first piece of a text that does not begin with the first character
/// of `p` keeps that first character.
pub proof fn lemma_split_first_keeps_head(y: Seq<char>, p: Seq<char>)
    requires
        y.len() > 0,
        p.len() > 0,
        y[0] != p[0],
    ensures
        split_first(y, p).len() > 0,
        split_first(y, p)[0] == y[0],
{
    lemma_first_match(y, p, 0);
    if match_at(y, p, 0) {
        assert(y.subrange(0, p.len() as int)[0] == y[0]);
    }
    match first_match(y, p, 0) {
        Some(k) => {
            if k == 0 {
                assert(y.subrange(0, p.len() as int)[0] == y[0]);
            }
        },
        None => {},
    }
}

/// The second piece of `x + p + y`, when `p` starts at no position of `x`
/// there, is the first piece of `y`.
pub proof fn lemma_split_second_concat(x: Seq<char>, p: Seq<char>, y: Seq<char>)
    requires
        forall|i: int| 0 <= i < x.len() ==> !match_at(x + p + y, p, i),
    ensures
        split_second(x + p + y, p) == Some(split_first(y, p)),
{
    let h = x + p + y;
    assert(h.subrange(x.len() as int, (x.len() + p.len()) as int) =~= p);
    lemma_first_match_skip(h, p, 0, x.len() as int);
    assert(h.skip((x.len() + p.len()) as int) =~= y);
}

// ---------------------------------------------------------------------
// Whitespace
// ---------------------------------------------------------------------

/// The characters with the Unicode `White_Space` property, which is what
/// `char::is_whitespace` tests.
pub open spec fn is_white_space(c: char) -> bool {
    let u = c as u32;
    ||| 0x09 <= u <= 0x0d
    ||| u == 0x20
    ||| u == 0x85
    ||| u == 0xa0
    ||| u == 0x1680
    ||| 0x2000 <= u <= 0x200a
    ||| u == 0x2028
    ||| u == 0x2029
    ||| u == 0x202f
    ||| u == 0x205f
    ||| u == 0x3000
}

/// Tests [`is_white_space`].
pub fn is_whitespace(c: char) -> (b: bool)
    ensures
        b == is_white_space(c),
{
    let u = c as u32;
    (0x09 <= u && u <= 0x0d) || u == 0x20 || u == 0x85 || u == 0xa0 || u == 0x1680 || (0x2000
        <= u && u <= 0x200a) || u == 0x2028 || u == 0x2029 || u == 0x202f || u == 0x205f || u
        == 0x3000
}

/// `s` without its leading white space.
pub open spec fn trim_start(s: Seq<char>) -> Seq<char>
    decreases s.len(),
{
    if s.len() > 0 && is_white_space(s[0]) {
        trim_start(s.drop_first())
    } else {
        s
    }
}

/// `s` without its trailing white space.
pub open spec fn trim_end(s: Seq<char>) -> Seq<char>
    decreases s.len(),
{
    if s.len() > 0 && is_white_space(s.last()) {
        trim_end(s.drop_last())
    } else {
        s
    }
}

/// `s` without leading and trailing white space (what `str::trim` returns).
pub open spec fn trim(s: Seq<char>) -> Seq<char> {
    trim_end(trim_start(s))
}

proof fn lemma_trim_start_skip(s: Seq<char>, i: int)
    requires
        0 <= i <= s.len(),
        forall|j: int| 0 <= j < i ==> is_white_space(s[j]),
    ensures
        trim_start(s) == trim_start(s.skip(i)),
    decreases i,
{
    if i > 0 {
        assert(s.drop_first().skip(i - 1) == s.skip(i));
        lemma_trim_start_skip(s.drop_first(), i - 1);
    } else {
        assert(s.skip(0) == s);
    }
}

proof fn lemma_trim_end_take(s: Seq<char>, i: int)
    requires
        0 <= i <= s.len(),
        forall|j: int| i <= j < s.len() ==> is_white_space(s[j]),
    ensures
        trim_end(s) == trim_end(s.take(i)),
    decreases s.len() - i,
{
    if i < s.len() {
        assert(s.drop_last().take(i) == s.take(i));
        lemma_trim_end_take(s.drop_last(), i);
    } else {
        assert(s.take(i) == s);
    }
}

/// The characters of `v` without leading and trailing white space.
pub fn trim_chars(v: &Vec<char>) -> (r: Vec<char>)
    ensures
        r@ == trim(v@),
{
    let n = v.len();
    let mut a: usize = 0;
    while a < n && is_whitespace(v[a])
        invariant
            a <= n == v@.len(),
            forall|j: int| 0 <= j < a ==> is_white_space(v@[j]),
        decreases n - a,
    {
        a = a + 1;
    }
    proof {
        lemma_trim_start_skip(v@, a as int);
    }
    let ghost t = v@.skip(a as int);
    assert(trim_start(t) == t);
    let mut b: usize = n;
    while b > a && is_whitespace(v[b - 1])
        invariant
            a <= b <= n == v@.len(),
            forall|j: int| b <= j < n ==> is_white_space(v@[j]),
        decreases b,
    {
        b = b - 1;
    }
    proof {
        assert forall|j: int| b - a <= j < t.len() implies is_white_space(t[j]) by {
            assert(t[j] == v@[j + a]);
        }
        lemma_trim_end_take(t, b - a);
        let u = t.take(b - a);
        if u.len() > 0 {
            assert(u.last() == v@[b - 1]);
        }
        assert(trim_end(u) == u);
        assert(u == v@.subrange(a as int, b as int));
    }
    let mut r: Vec<char> = Vec::new();
    let mut k = a;
    while k < b
        invariant
            a <= k <= b <= v@.len(),
            r@ == v@.subrange(a as int, k as int),
        decreases b - k,
    {
        r.push(v[k]);
        assert(v@.subrange(a as int, k + 1) == v@.subrange(a as int, k as int).push(v@[k as int]));
        k = k + 1;
    }
    r
}

// ---------------------------------------------------------------------
// Numbers
// ---------------------------------------------------------------------

/// The decimal digit for `d < 10`.
pub open spec fn digit_char(d: nat) -> char {
    if d == 0 {
        '0'
    } else if d == 1 {
        '1'
    } else if d == 2 {
        '2'
    } else if d == 3 {
        '3'
    } else if d == 4 {
        '4'
    } else if d == 5 {
        '5'
    } else if d == 6 {
        '6'
    } else if d == 7 {
        '7'
    } else if d == 8 {
        '8'
    } else {
        '9'
    }
}

/// The decimal notation of `n`, without leading zeros (as `{}` prints it).
pub open spec fn decimal(n: nat) -> Seq<char>
    decreases n,
{
    if n < 10 {
        seq![digit_char(n)]
    } else {
        decimal(n / 10).push(digit_char(n % 10))
    }
}

pub(crate) fn digit(d: u64) -> (c: char)
    requires
        d < 10,
    ensures
        c == digit_char(d as nat),
{
    if d == 0 {
        '0'
    } else if d == 1 {
        '1'
    } else if d == 2 {
        '2'
    } else if d == 3 {
        '3'
    } else if d == 4 {
        '4'
    } else if d == 5 {
        '5'
    } else if d == 6 {
        '6'
    } else if d == 7 {
        '7'
    } else if d == 8 {
        '8'
    } else {
        '9'
    }
}

/// Appends the decimal notation of `n` to `s`.
pub fn push_decimal(s: &mut String, n: u64)
    ensures
        final(s)@ == old(s)@ + decimal(n as nat),
    decreases n,
{
    if n >= 10 {
        push_decimal(s, n / 10);
    }
    push_char(s, digit(n % 10));
    assert(old(s)@ + decimal(n as nat) == (old(s)@ + (if n >= 10 {
        decimal((n / 10) as nat)
    } else {
        Seq::empty()
    })).push(digit_char((n % 10) as nat)));
}

/// The decimal notation of `n`.
pub fn decimal_string(n: u64) -> (s: String)
    ensures
        s@ == decimal(n as nat),
{
    let mut s = String::new();
    push_decimal(&mut s, n);
    s
}

/// `n` spaces.
pub open spec fn spaces(n: nat) -> Seq<char> {
    Seq::new(n, |_i: int| ' ')
}

/// The decimal notation of `n`, padded on the left with spaces to at least
/// `width` characters (as `{:>width$}` prints it).
pub open spec fn right_aligned_decimal(n: nat, width: nat) -> Seq<char> {
    let d = decimal(n);
    if d.len() < width {
        spaces((width - d.len()) as nat) + d
    } else {
        d
    }
}

/// Appends [`right_aligned_decimal`] of `n` to `s`.
pub fn push_right_aligned(s: &mut String, n: u64, width: usize)
    ensures
        final(s)@ == old(s)@ + right_aligned_decimal(n as nat, width as nat),
{
    let d = decimal_string(n);
    let len = d.as_str().unicode_len();
    if len < width {
        let mut k: usize = 0;
        while k < width - len
            invariant
                k <= width - len,
                s@ == old(s)@ + spaces(k as nat),
            decreases width - len - k,
        {
            push_char(s, ' ');
            assert(spaces((k + 1) as nat) == spaces(k as nat).push(' '));
            k = k + 1;
        }
    }
    s.append(d.as_str());
}

} // verus!

verus! {

// ---------------------------------------------------------------------
// Concatenation over sequences
// ---------------------------------------------------------------------

/// The texts `f(s[0])`, `f(s[1])`, ... written one after the other.
pub open spec fn concat_map<A>(s: Seq<A>, f: spec_fn(A) -> Seq<char>) -> Seq<char>
    decreases s.len(),
{
    if s.len() == 0 {
        Seq::empty()
    } else {
        concat_map(s.drop_last(), f) + f(s.last())
    }
}

/// Extending the prefix by one element appends that element's text.
pub proof fn lemma_concat_map_take<A>(s: Seq<A>, f: spec_fn(A) -> Seq<char>, i: int)
    requires
        0 <= i < s.len(),
    ensures
        concat_map(s.take(i + 1), f) == concat_map(s.take(i), f) + f(s[i]),
{
    assert(s.take(i + 1).drop_last() == s.take(i));
    assert(s.take(i + 1).last() == s[i]);
}

/// The text of two sequences one after the other is the text of the first
/// followed by the text of the second.
pub proof fn lemma_concat_map_append<A>(a: Seq<A>, b: Seq<A>, f: spec_fn(A) -> Seq<char>)
    ensures
        concat_map(a + b, f) == concat_map(a, f) + concat_map(b, f),
    decreases b.len(),
{
    if b.len() == 0 {
        assert(a + b =~= a);
        assert(concat_map(a, f) + concat_map(b, f) =~= concat_map(a, f));
    } else {
        lemma_concat_map_append(a, b.drop_last(), f);
        assert((a + b).drop_last() =~= a + b.drop_last());
        assert((a + b).last() == b.last());
        assert(concat_map(a, f) + concat_map(b.drop_last(), f) + f(b.last()) =~= concat_map(a, f) + (
        concat_map(b.drop_last(), f) + f(b.last())));
    }
}

/// The text of a sequence holds the text of each element, after the text of
/// the elements before it.
pub proof fn lemma_concat_map_split<A>(s: Seq<A>, f: spec_fn(A) -> Seq<char>, i: int)
    requires
        0 <= i < s.len(),
    ensures
        concat_map(s, f) == concat_map(s.take(i), f) + f(s[i]) + concat_map(s.skip(i + 1), f),
{
    let one = seq![s[i]];
    assert(s =~= s.take(i) + one + s.skip(i + 1));
    lemma_concat_map_append(s.take(i) + one, s.skip(i + 1), f);
    lemma_concat_map_append(s.take(i), one, f);
    assert(one.drop_last() =~= Seq::<A>::empty());
    assert(concat_map(one.drop_last(), f) =~= Seq::<char>::empty());
    assert(one.last() == s[i]);
    assert(concat_map(one, f) == concat_map(one.drop_last(), f) + f(one.last()));
    assert(concat_map(one, f) =~= f(s[i]));
}

/// A text that is placed between two others occurs in the whole.
pub proof fn lemma_contains_middle(x: Seq<char>, p: Seq<char>, z: Seq<char>)
    ensures
        contains(x + p + z, p),
{
    assert((x + p + z).subrange(x.len() as int, (x.len() + p.len()) as int) =~= p);
    assert(match_at(x + p + z, p, x.len() as int));
}

/// A text that occurs in a part occurs in the whole.
pub proof fn lemma_contains_within(x: Seq<char>, y: Seq<char>, z: Seq<char>, p: Seq<char>)
    requires
        contains(y, p),
    ensures
        contains(x + y + z, p),
{
    let k = choose|k: int| match_at(y, p, k);
    assert((x + y + z).subrange(x.len() + k, x.len() + k + p.len()) =~= y.subrange(k, k + p.len()));
    assert(match_at(x + y + z, p, x.len() + k));
}

/// The whole sequence is its own prefix of full length.
pub proof fn lemma_take_full<A>(s: Seq<A>)
    ensures
        s.take(s.len() as int) == s,
{
    assert(s.take(s.len() as int) =~= s);
}

} // verus!

verus! {

// ---------------------------------------------------------------------
// Parsing unsigned integers
// ---------------------------------------------------------------------

/// An ASCII decimal digit.
pub open spec fn is_ascii_digit(c: char) -> bool {
    '0' <= c && c <= '9'
}

/// The value of a string of decimal digits.
pub open spec fn digits_value(d: Seq<char>) -> nat
    decreases d.len(),
{
    if d.len() == 0 {
        0
    } else {
        digits_value(d.drop_last()) * 10 + (d.last() as nat - '0' as nat) as nat
    }
}

/// The digits of an unsigned number: the text without one leading `+`.
pub open spec fn unsigned_digits(s: Seq<char>) -> Seq<char> {
    if s.len() > 0 && s[0] == '+' {
        s.drop_first()
    } else {
        s
    }
}

/// What `str::parse::<u64>` gives: the value of an optional `+` followed by
/// at least one decimal digit, when it fits in 64 bits.
pub open spec fn parsed_u64(s: Seq<char>) -> Option<u64> {
    let d = unsigned_digits(s);
    if d.len() > 0 && (forall|i: int| 0 <= i < d.len() ==> is_ascii_digit(d[i])) && digits_value(d)
        <= u64::MAX {
        Some(digits_value(d) as u64)
    } else {
        None
    }
}

/// A text with a character that is neither a digit nor a leading `+`
/// spells no number.
proof fn lemma_non_digit_blocks_number(s: Seq<char>, i: int)
    requires
        0 <= i < s.len(),
        !is_ascii_digit(s[i]),
        s[i] != '+',
    ensures
        parsed_u64(s) is None,
{
    let d = unsigned_digits(s);
    if s.len() > 0 && s[0] == '+' {
        assert(d[i - 1] == s[i]);
    } else {
        assert(d[i] == s[i]);
    }
}

/// Changing the ASCII case of a text never changes the number it spells:
/// a text with a letter spells none either way, and one without is left as
/// it is.
pub proof fn lemma_ascii_case_keeps_number(s: Seq<char>)
    ensures
        parsed_u64(ascii_uppercase(s)) == parsed_u64(s),
        parsed_u64(ascii_lowercase(s)) == parsed_u64(s),
{
    let u = ascii_uppercase(s);
    let l = ascii_lowercase(s);
    if exists|i: int| 0 <= i < s.len() && 'a' <= #[trigger] s[i] && s[i] <= 'z' {
        let i = choose|i: int| 0 <= i < s.len() && 'a' <= #[trigger] s[i] && s[i] <= 'z';
        lemma_non_digit_blocks_number(s, i);
        lemma_non_digit_blocks_number(u, i);
    } else {
        assert(u =~= s);
    }
    if exists|i: int| 0 <= i < s.len() && 'A' <= #[trigger] s[i] && s[i] <= 'Z' {
        let i = choose|i: int| 0 <= i < s.len() && 'A' <= #[trigger] s[i] && s[i] <= 'Z';
        lemma_non_digit_blocks_number(s, i);
        lemma_non_digit_blocks_number(l, i);
    } else {
        assert(l =~= s);
    }
}

/// Lowering the ASCII case forgets the ASCII case: a text, its ASCII upper
/// case and its ASCII lower case all lower to the same text, and each of
/// them is ASCII when the text is.
pub proof fn lemma_ascii_lowering_forgets_case(s: Seq<char>)
    ensures
        ascii_lowercase(ascii_uppercase(s)) == ascii_lowercase(s),
        ascii_lowercase(ascii_lowercase(s)) == ascii_lowercase(s),
        is_ascii_chars(s) ==> is_ascii_chars(ascii_uppercase(s)) && is_ascii_chars(ascii_lowercase(s)),
{
    assert(ascii_lowercase(ascii_uppercase(s)) =~= ascii_lowercase(s));
    assert(ascii_lowercase(ascii_lowercase(s)) =~= ascii_lowercase(s));
}

proof fn lemma_digits_value_grows(d: Seq<char>, k: int)
    requires
        0 <= k <= d.len(),
        forall|i: int| 0 <= i < d.len() ==> is_ascii_digit(d[i]),
    ensures
        digits_value(d.take(k)) <= digits_value(d),
    decreases d.len(),
{
    if k < d.len() {
        assert(d.drop_last().take(k) == d.take(k));
        lemma_digits_value_grows(d.drop_last(), k);
    } else {
        assert(d.take(k) == d);
    }
}

proof fn lemma_overflow_means_none(d: Seq<char>, k: int)
    requires
        0 <= k <= d.len(),
        digits_value(d.take(k)) > u64::MAX,
    ensures
        !((forall|i: int| 0 <= i < d.len() ==> is_ascii_digit(d[i])) && digits_value(d) <= u64::MAX),
{
    if forall|i: int| 0 <= i < d.len() ==> is_ascii_digit(d[i]) {
        lemma_digits_value_grows(d, k);
    }
}

/// Parses an unsigned 64-bit number as [`parsed_u64`] says.
pub fn parse_u64(s: &str) -> (r: Option<u64>)
    ensures
        r == parsed_u64(s@),
{
    let cs = chars_of(s);
    let start: usize = if cs.len() > 0 && cs[0] == '+' {
        1
    } else {
        0
    };
    let ghost d = unsigned_digits(cs@);
    assert(d == cs@.skip(start as int));
    if start == cs.len() {
        return None;
    }
    let mut v: u64 = 0;
    let mut i: usize = start;
    while i < cs.len()
        invariant
            start <= i <= cs@.len(),
            cs@ == s@,
            d == unsigned_digits(s@),
            d == cs@.skip(start as int),
            d.len() == cs@.len() - start,
            forall|j: int| 0 <= j < i - start ==> is_ascii_digit(d[j]),
            v == digits_value(d.take(i - start)),
        decreases cs@.len() - i,
    {
        let c = cs[i];
        assert(d[i - start] == c);
        if !('0' <= c && c <= '9') {
            assert(!is_ascii_digit(d[i - start]));
            return None;
        }
        let x = (c as u32 - '0' as u32) as u64;
        assert(d.take(i - start + 1).drop_last() == d.take(i - start));
        assert(d.take(i - start + 1).last() == c);
        match v.checked_mul(10) {
            Some(v10) => match v10.checked_add(x) {
                Some(v2) => {
                    v = v2;
                },
                None => {
                    proof {
                        lemma_overflow_means_none(d, i - start + 1);
                    }
                    return None;
                },
            },
            None => {
                proof {
                    lemma_overflow_means_none(d, i - start + 1);
                }
                return None;
            },
        }
        i = i + 1;
    }
    assert(d.take(d.len() as int) == d);
    Some(v)
}

} // verus!

verus! {

// ---------------------------------------------------------------------
// Lexicographic order
// ---------------------------------------------------------------------

/// `a` comes before `b` or equals it, comparing character by character
/// (the order of `String`'s `Ord`, since UTF-8 keeps the order of code
/// points).
pub open spec fn lex_le(a: Seq<char>, b: Seq<char>) -> bool
    decreases a.len(),
{
    if a.len() == 0 {
        true
    } else if b.len() == 0 {
        false
    } else if a[0] != b[0] {
        a[0] < b[0]
    } else {
        lex_le(a.drop_first(), b.drop_first())
    }
}

/// The order is reflexive and total.
pub proof fn lemma_lex_total(a: Seq<char>, b: Seq<char>)
    ensures
        lex_le(a, a),
        lex_le(a, b) || lex_le(b, a),
    decreases a.len(),
{
    if a.len() > 0 && b.len() > 0 {
        lemma_lex_total(a.drop_first(), b.drop_first());
    }
    if a.len() > 0 {
        lemma_lex_total(a.drop_first(), a.drop_first());
    }
}

/// The order is transitive.
pub proof fn lemma_lex_trans(a: Seq<char>, b: Seq<char>, c: Seq<char>)
    requires
        lex_le(a, b),
        lex_le(b, c),
    ensures
        lex_le(a, c),
    decreases a.len(),
{
    if a.len() > 0 && b.len() > 0 && c.len() > 0 && a[0] == b[0] && b[0] == c[0] {
        lemma_lex_trans(a.drop_first(), b.drop_first(), c.drop_first());
    }
}

/// The order is antisymmetric.
pub proof fn lemma_lex_antisym(a: Seq<char>, b: Seq<char>)
    requires
        lex_le(a, b),
        lex_le(b, a),
    ensures
        a == b,
    decreases a.len(),
{
    if a.len() > 0 && b.len() > 0 {
        lemma_lex_antisym(a.drop_first(), b.drop_first());
        assert(a =~= seq![a[0]] + a.drop_first());
        assert(b =~= seq![b[0]] + b.drop_first());
    }
}

proof fn lemma_lex_skip(a: Seq<char>, b: Seq<char>, i: int)
    requires
        0 <= i <= a.len(),
        i <= b.len(),
        forall|j: int| 0 <= j < i ==> a[j] == b[j],
    ensures
        lex_le(a, b) == lex_le(a.skip(i), b.skip(i)),
    decreases i,
{
    if i > 0 {
        assert(a.drop_first().skip(i - 1) == a.skip(i));
        assert(b.drop_first().skip(i - 1) == b.skip(i));
        lemma_lex_skip(a.drop_first(), b.drop_first(), i - 1);
    } else {
        assert(a.skip(0) == a);
        assert(b.skip(0) == b);
    }
}

/// Compares two texts as [`lex_le`] says.
pub fn lex_le_chars(a: &Vec<char>, b: &Vec<char>) -> (r: bool)
    ensures
        r == lex_le(a@, b@),
{
    let mut i: usize = 0;
    while i < a.len() && i < b.len() && a[i] == b[i]
        invariant
            i <= a@.len(),
            i <= b@.len(),
            forall|j: int| 0 <= j < i ==> a@[j] == b@[j],
        decreases a@.len() - i,
    {
        i = i + 1;
    }
    proof {
        lemma_lex_skip(a@, b@, i as int);
    }
    if i == a.len() {
        true
    } else if i == b.len() {
        false
    } else {
        assert(a@.skip(i as int)[0] == a@[i as int]);
        assert(b@.skip(i as int)[0] == b@[i as int]);
        a[i] < b[i]
    }
}

} // verus!
