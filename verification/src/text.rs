//! Character-level text helpers: whitespace trimming, searching for a
//! character, splitting on a separator, decimal numbers and case mapping.
//!
//! Every helper is specified over the `Seq<char>` view of its input.

use vstd::prelude::*;
use vstd::string::*;

verus! {

// ---------------------------------------------------------------------------
// Whitespace and trimming
// ---------------------------------------------------------------------------

/// The characters that carry the Unicode `White_Space` property, which is
/// what `char::is_whitespace` (and so `str::trim`) recognises.
pub open spec fn is_space_char(c: char) -> bool {
    let u = c as u32;
    ||| (0x9 <= u && u <= 0xd)
    ||| u == 0x20
    ||| u == 0x85
    ||| u == 0xa0
    ||| u == 0x1680
    ||| (0x2000 <= u && u <= 0x200a)
    ||| u == 0x2028
    ||| u == 0x2029
    ||| u == 0x202f
    ||| u == 0x205f
    ||| u == 0x3000
}

/// `s` without its leading whitespace.
pub open spec fn trimmed_start(s: Seq<char>) -> Seq<char>
    decreases s.len(),
{
    if s.len() > 0 && is_space_char(s[0]) {
        trimmed_start(s.drop_first())
    } else {
        s
    }
}

/// `s` without its trailing whitespace.
pub open spec fn trimmed_end(s: Seq<char>) -> Seq<char>
    decreases s.len(),
{
    if s.len() > 0 && is_space_char(s.last()) {
        trimmed_end(s.drop_last())
    } else {
        s
    }
}

/// `s` without leading and trailing whitespace.
pub open spec fn trimmed(s: Seq<char>) -> Seq<char> {
    trimmed_end(trimmed_start(s))
}

/// Trimming the start drops a prefix: what is left is a suffix of `s`.
pub proof fn lemma_trimmed_start_suffix(s: Seq<char>) -> (k: int)
    ensures
        0 <= k <= s.len(),
        trimmed_start(s) == s.subrange(k, s.len() as int),
    decreases s.len(),
{
    if s.len() > 0 && is_space_char(s[0]) {
        let k = lemma_trimmed_start_suffix(s.drop_first());
        assert(s.drop_first().subrange(k, s.drop_first().len() as int) =~= s.subrange(
            k + 1,
            s.len() as int,
        ));
        k + 1
    } else {
        assert(s.subrange(0, s.len() as int) =~= s);
        0
    }
}

/// Trimming the end drops a suffix: what is left is a prefix of `s`.
pub proof fn lemma_trimmed_end_prefix(s: Seq<char>) -> (k: int)
    ensures
        0 <= k <= s.len(),
        trimmed_end(s) == s.subrange(0, k),
    decreases s.len(),
{
    if s.len() > 0 && is_space_char(s.last()) {
        let k = lemma_trimmed_end_prefix(s.drop_last());
        assert(s.drop_last().subrange(0, k) =~= s.subrange(0, k));
        k
    } else {
        assert(s.subrange(0, s.len() as int) =~= s);
        s.len() as int
    }
}

/// Trimming keeps a contiguous piece of the text, unchanged.
pub proof fn lemma_trimmed_is_infix(s: Seq<char>) -> (ij: (int, int))
    ensures
        0 <= ij.0 <= ij.1 <= s.len(),
        trimmed(s) == s.subrange(ij.0, ij.1),
{
    let a = lemma_trimmed_start_suffix(s);
    let t = trimmed_start(s);
    let b = lemma_trimmed_end_prefix(t);
    assert(t.subrange(0, b) =~= s.subrange(a, a + b));
    (a, a + b)
}

/// Whether `c` is a whitespace character.
pub fn is_space(c: char) -> (r: bool)
    ensures
        r == is_space_char(c),
{
    let u = c as u32;
    (0x9 <= u && u <= 0xd) || u == 0x20 || u == 0x85 || u == 0xa0 || u == 0x1680 || (0x2000 <= u
        && u <= 0x200a) || u == 0x2028 || u == 0x2029 || u == 0x202f || u == 0x205f || u == 0x3000
}

/// Remove leading and trailing whitespace.
pub fn trim(s: &str) -> (r: &str)
    ensures
        r@ == trimmed(s@),
{
    let n = s.unicode_len();
    let mut i: usize = 0;
    assert(s@.subrange(0, n as int) =~= s@);
    while i < n && is_space(s.get_char(i))
        invariant
            i <= n,
            n == s@.len(),
            trimmed_start(s@.subrange(i as int, n as int)) == trimmed_start(s@),
        decreases n - i,
    {
        assert(s@.subrange(i as int, n as int).drop_first() =~= s@.subrange(i + 1, n as int));
        i = i + 1;
    }
    assert(trimmed_start(s@) == s@.subrange(i as int, n as int));
    let mut j: usize = n;
    while j > i && is_space(s.get_char(j - 1))
        invariant
            i <= j <= n,
            n == s@.len(),
            trimmed_start(s@) == s@.subrange(i as int, n as int),
            trimmed_end(s@.subrange(i as int, j as int)) == trimmed(s@),
        decreases j,
    {
        assert(s@.subrange(i as int, j as int).drop_last() =~= s@.subrange(i as int, j - 1));
        j = j - 1;
    }
    s.substring_char(i, j)
}

// ---------------------------------------------------------------------------
// Searching
// ---------------------------------------------------------------------------

/// `i` is the position of the first `c` in `s`.
pub open spec fn is_first_index(s: Seq<char>, c: char, i: int) -> bool {
    &&& 0 <= i < s.len()
    &&& s[i] == c
    &&& forall|j: int| 0 <= j < i ==> s[j] != c
}

/// The position of the first `c` in `s`, if there is one.
pub open spec fn first_index_of(s: Seq<char>, c: char) -> Option<int> {
    if exists|i: int| is_first_index(s, c, i) {
        Some(choose|i: int| is_first_index(s, c, i))
    } else {
        None
    }
}

/// The first occurrence is unique, so it is what `first_index_of` picks.
pub proof fn lemma_first_index_of(s: Seq<char>, c: char, i: int)
    requires
        is_first_index(s, c, i),
    ensures
        first_index_of(s, c) == Some(i),
{
    let k = choose|k: int| is_first_index(s, c, k);
    assert(is_first_index(s, c, k));
    if k < i {
        assert(s[k] != c);
    } else if i < k {
        assert(s[i] != c);
    }
}

/// When `c` occurs in `s`, it has a first occurrence.
pub proof fn lemma_first_index_of_some(s: Seq<char>, c: char, j: int)
    requires
        0 <= j < s.len(),
        s[j] == c,
    ensures
        first_index_of(s, c) is Some,
    decreases j,
{
    if forall|m: int| 0 <= m < j ==> s[m] != c {
        assert(is_first_index(s, c, j));
    } else {
        let m = choose|m: int| 0 <= m < j && s[m] == c;
        lemma_first_index_of_some(s, c, m);
    }
}

/// With no `c` in `s`, there is no first occurrence.
pub proof fn lemma_first_index_of_none(s: Seq<char>, c: char)
    requires
        forall|j: int| 0 <= j < s.len() ==> s[j] != c,
    ensures
        first_index_of(s, c) is None,
{
}

/// The absolute position of the first `c` in `s` at or after `start`.
pub fn find_char_from(s: &str, c: char, start: usize) -> (r: Option<usize>)
    requires
        start <= s@.len(),
    ensures
        match r {
            Some(k) => start <= k < s@.len() && first_index_of(s@.subrange(start as int, s@.len() as int), c)
                == Some(k - start),
            None => first_index_of(s@.subrange(start as int, s@.len() as int), c) is None,
        },
{
    let n = s.unicode_len();
    let ghost t = s@.subrange(start as int, n as int);
    let mut k: usize = start;
    while k < n
        invariant
            start <= k <= n,
            n == s@.len(),
            t == s@.subrange(start as int, n as int),
            forall|j: int| 0 <= j < k - start ==> t[j] != c,
        decreases n - k,
    {
        if s.get_char(k) == c {
            proof {
                lemma_first_index_of(t, c, k - start);
            }
            return Some(k);
        }
        k = k + 1;
    }
    proof {
        lemma_first_index_of_none(t, c);
    }
    None
}

/// The position of the first `c` in `s`.
pub fn find_char(s: &str, c: char) -> (r: Option<usize>)
    ensures
        match r {
            Some(k) => k < s@.len() && first_index_of(s@, c) == Some(k as int),
            None => first_index_of(s@, c) is None,
        },
{
    assert(s@.subrange(0, s@.len() as int) =~= s@);
    find_char_from(s, c, 0)
}

/// Whether two strings hold the same characters.
pub fn str_eq(a: &str, b: &str) -> (r: bool)
    ensures
        r == (a@ == b@),
{
    let n = a.unicode_len();
    if n != b.unicode_len() {
        return false;
    }
    let mut i: usize = 0;
    while i < n
        invariant
            i <= n,
            n == a@.len(),
            n == b@.len(),
            forall|j: int| 0 <= j < i ==> a@[j] == b@[j],
        decreases n - i,
    {
        if a.get_char(i) != b.get_char(i) {
            return false;
        }
        i = i + 1;
    }
    assert(a@ =~= b@);
    true
}

// ---------------------------------------------------------------------------
// Splitting
// ---------------------------------------------------------------------------

/// The pieces of `s` between occurrences of `c` (what `str::split` yields):
/// always at least one piece, and one more than there are `c` in `s`.
pub open spec fn split_parts(s: Seq<char>, c: char) -> Seq<Seq<char>>
    decreases s.len(),
{
    match first_index_of(s, c) {
        Some(i) => if 0 <= i < s.len() {
            seq![s.subrange(0, i)] + split_parts(s.subrange(i + 1, s.len() as int), c)
        } else {
            seq![s]
        },
        None => seq![s],
    }
}

/// No piece of a split holds the separator.
pub proof fn lemma_split_parts_no_separator(s: Seq<char>, c: char)
    ensures
        forall|i: int, j: int|
            0 <= i < split_parts(s, c).len() && 0 <= j < split_parts(s, c)[i].len()
                ==> #[trigger] split_parts(s, c)[i][j] != c,
    decreases s.len(),
{
    let parts = split_parts(s, c);
    match first_index_of(s, c) {
        Some(k) => {
            if 0 <= k < s.len() {
                let t = s.subrange(k + 1, s.len() as int);
                lemma_split_parts_no_separator(t, c);
                assert(exists|m: int| is_first_index(s, c, m));
                assert(is_first_index(s, c, k));
                assert forall|i: int, j: int|
                    0 <= i < parts.len() && 0 <= j < parts[i].len() implies #[trigger] parts[i][j]
                    != c by {
                    if i > 0 {
                        assert(parts[i] == split_parts(t, c)[i - 1]);
                    }
                }
            }
        },
        None => {
            assert forall|j: int| 0 <= j < s.len() implies s[j] != c by {
                if s[j] == c {
                    lemma_first_index_of_some(s, c, j);
                }
            }
        },
    }
}

/// The views of a list of strings.
pub open spec fn views(v: Seq<String>) -> Seq<Seq<char>> {
    v.map_values(|p: String| p@)
}

/// Split `s` on every occurrence of `c`.
pub fn split_char(s: &str, c: char) -> (r: Vec<String>)
    ensures
        views(r@) == split_parts(s@, c),
{
    let n = s.unicode_len();
    let mut parts: Vec<String> = Vec::new();
    let mut start: usize = 0;
    assert(s@.subrange(0, n as int) =~= s@);
    assert(views(parts@) + split_parts(s@, c) =~= split_parts(s@, c));
    loop
        invariant_except_break
            start <= n,
            n == s@.len(),
            views(parts@) + split_parts(s@.subrange(start as int, n as int), c) == split_parts(
                s@,
                c,
            ),
        ensures
            views(parts@) == split_parts(s@, c),
        decreases n - start,
    {
        let ghost t = s@.subrange(start as int, n as int);
        let ghost before = parts@;
        match find_char_from(s, c, start) {
            Some(k) => {
                let piece = String::from_str(s.substring_char(start, k));
                parts.push(piece);
                proof {
                    let i = k - start;
                    assert(t.subrange(0, i) =~= s@.subrange(start as int, k as int));
                    assert(t.subrange(i + 1, t.len() as int) =~= s@.subrange(k + 1, n as int));
                    assert(views(parts@) =~= views(before).push(s@.subrange(start as int, k as int)));
                    assert(views(parts@) + split_parts(s@.subrange(k + 1, n as int), c) =~= views(
                        before,
                    ) + split_parts(t, c));
                }
                start = k + 1;
            },
            None => {
                let piece = String::from_str(s.substring_char(start, n));
                parts.push(piece);
                proof {
                    assert(views(parts@) =~= views(before).push(t));
                    assert(split_parts(t, c) =~= seq![t]);
                    assert(views(parts@) =~= views(before) + split_parts(t, c));
                }
                break ;
            },
        }
    }
    parts
}

// ---------------------------------------------------------------------------
// Decimal numbers
// ---------------------------------------------------------------------------

/// The character for a decimal digit.
pub open spec fn digit_char(d: int) -> char {
    if d == 0 {
        '0'
    } else if d == 1 {
        '1'
    } else if d == 2 {
        '2'
    } else if d == 3 {
        '3'
    } else if d == 4 {
        '4'
    } else if d == 5 {
        '5'
    } else if d == 6 {
        '6'
    } else if d == 7 {
        '7'
    } else if d == 8 {
        '8'
    } else {
        '9'
    }
}

/// The decimal notation of `n`, without leading zeros.
pub open spec fn decimal_text(n: nat) -> Seq<char>
    decreases n,
{
    if n < 10 {
        seq![digit_char(n as int)]
    } else {
        decimal_text(n / 10).push(digit_char((n % 10) as int))
    }
}

fn digit_str(d: usize) -> (r: &'static str)
    requires
        d < 10,
    ensures
        r@ == seq![digit_char(d as int)],
{
    if d == 0 {
        proof {
            reveal_strlit("0");
        }
        "0"
    } else if d == 1 {
        proof {
            reveal_strlit("1");
        }
        "1"
    } else if d == 2 {
        proof {
            reveal_strlit("2");
        }
        "2"
    } else if d == 3 {
        proof {
            reveal_strlit("3");
        }
        "3"
    } else if d == 4 {
        proof {
            reveal_strlit("4");
        }
        "4"
    } else if d == 5 {
        proof {
            reveal_strlit("5");
        }
        "5"
    } else if d == 6 {
        proof {
            reveal_strlit("6");
        }
        "6"
    } else if d == 7 {
        proof {
            reveal_strlit("7");
        }
        "7"
    } else if d == 8 {
        proof {
            reveal_strlit("8");
        }
        "8"
    } else {
        proof {
            reveal_strlit("9");
        }
        "9"
    }
}

/// The decimal notation of `n` (what `n.to_string()` gives).
pub fn decimal(n: usize) -> (r: String)
    ensures
        r@ == decimal_text(n as nat),
    decreases n,
{
    if n < 10 {
        String::from_str(digit_str(n))
    } else {
        let mut r = decimal(n / 10);
        r.append(digit_str(n % 10));
        r
    }
}

/// Whether `c` is one of `0`..`9`.
pub open spec fn is_digit_char(c: char) -> bool {
    48 <= (c as u32) && (c as u32) <= 57
}

/// The value of a decimal digit character.
pub open spec fn digit_value(c: char) -> int {
    (c as u32) - 48
}

/// The value of a string of decimal digits.
pub open spec fn digits_value(d: Seq<char>) -> int
    decreases d.len(),
{
    if d.len() == 0 {
        0
    } else {
        digits_value(d.drop_last()) * 10 + digit_value(d.last())
    }
}

/// All characters of `d` are decimal digits.
pub open spec fn all_digits(d: Seq<char>) -> bool {
    forall|i: int| 0 <= i < d.len() ==> is_digit_char(#[trigger] d[i])
}

/// The digits of an unsigned number: a leading `+` is allowed before at
/// least one more character.
pub open spec fn unsigned_digits(s: Seq<char>) -> Seq<char> {
    if s.len() > 1 && s[0] == '+' {
        s.drop_first()
    } else {
        s
    }
}

/// What `str::parse::<usize>` accepts: an optional `+`, then one or more
/// decimal digits whose value fits in a `usize`.
pub open spec fn parsed_usize(s: Seq<char>) -> Option<int> {
    let d = unsigned_digits(s);
    if d.len() > 0 && all_digits(d) && digits_value(d) <= usize::MAX {
        Some(digits_value(d))
    } else {
        None
    }
}

/// The value of a digit string is at least the value of any of its prefixes.
pub proof fn lemma_digits_value_prefix(d: Seq<char>, k: int)
    requires
        all_digits(d),
        0 <= k <= d.len(),
    ensures
        0 <= digits_value(d.take(k)) <= digits_value(d),
    decreases d.len(),
{
    if k == d.len() {
        assert(d.take(k) =~= d);
        lemma_digits_value_nonneg(d);
    } else {
        assert(d.drop_last().take(k) =~= d.take(k));
        lemma_digits_value_prefix(d.drop_last(), k);
    }
}

/// Digit strings have non-negative values.
pub proof fn lemma_digits_value_nonneg(d: Seq<char>)
    requires
        all_digits(d),
    ensures
        0 <= digits_value(d),
    decreases d.len(),
{
    if d.len() > 0 {
        lemma_digits_value_nonneg(d.drop_last());
    }
}

/// Parse a `usize` written in decimal.
pub fn parse_usize(s: &str) -> (r: Option<usize>)
    ensures
        match r {
            Some(v) => parsed_usize(s@) == Some(v as int),
            None => parsed_usize(s@) is None,
        },
{
    let n = s.unicode_len();
    let ghost d = unsigned_digits(s@);
    let mut i: usize = 0;
    if n > 1 && s.get_char(0) == '+' {
        i = 1;
    }
    if i == n {
        return None;
    }
    let ghost off = i as int;
    assert(d =~= s@.subrange(off, n as int));
    assert(d.take(0) =~= Seq::<char>::empty());
    let mut v: usize = 0;
    while i < n
        invariant
            off <= i <= n,
            n == s@.len(),
            d == s@.subrange(off, n as int),
            d.len() == n - off,
            d == unsigned_digits(s@),
            d.len() > 0,
            forall|j: int| 0 <= j < i - off ==> is_digit_char(#[trigger] d[j]),
            v == digits_value(d.take(i - off)),
        decreases n - i,
    {
        let c = s.get_char(i);
        let ghost j = i - off;
        assert(d[j] == c);
        if !('0' <= c && c <= '9') {
            assert(!all_digits(d));
            return None;
        }
        let dv = (c as u32 - 48) as usize;
        assert(d.take(j + 1).drop_last() =~= d.take(j));
        assert(d.take(j + 1).last() == c);
        match v.checked_mul(10) {
            None => {
                proof {
                    if all_digits(d) {
                        lemma_digits_value_prefix(d, j + 1);
                        lemma_digits_value_nonneg(d.take(j));
                    }
                }
                return None;
            },
            Some(m) => match m.checked_add(dv) {
                None => {
                    proof {
                        if all_digits(d) {
                            lemma_digits_value_prefix(d, j + 1);
                        }
                    }
                    return None;
                },
                Some(w) => {
                    v = w;
                },
            },
        }
        i = i + 1;
    }
    assert(d.take(n - off) =~= d);
    Some(v)
}

/// Digit characters are digits, with the value they stand for.
pub proof fn lemma_digit_char(k: int)
    requires
        0 <= k < 10,
    ensures
        is_digit_char(digit_char(k)),
        digit_value(digit_char(k)) == k,
{
}

/// The decimal text of `n` is a non-empty string of digits whose value is
/// `n`.
pub proof fn lemma_decimal_text(n: nat)
    ensures
        decimal_text(n).len() > 0,
        all_digits(decimal_text(n)),
        digits_value(decimal_text(n)) == n,
    decreases n,
{
    if n < 10 {
        lemma_digit_char(n as int);
        let d = decimal_text(n);
        assert(d.drop_last() =~= Seq::<char>::empty());
        assert(digits_value(d.drop_last()) == 0);
        assert(d.last() == digit_char(n as int));
        assert(digits_value(d) == digits_value(d.drop_last()) * 10 + digit_value(d.last()));
    } else {
        lemma_decimal_text(n / 10);
        lemma_digit_char((n % 10) as int);
        let d = decimal_text(n);
        assert(d.drop_last() =~= decimal_text(n / 10));
        assert(d.last() == digit_char((n % 10) as int));
        assert(digits_value(d) == digits_value(d.drop_last()) * 10 + digit_value(d.last()));
        assert((n / 10) * 10 + n % 10 == n) by (nonlinear_arith);
        assert forall|i: int| 0 <= i < d.len() implies is_digit_char(#[trigger] d[i]) by {
            if i < d.len() - 1 {
                assert(d[i] == decimal_text(n / 10)[i]);
            }
        }
    }
}

/// Number law: the decimal text of a `usize` parses back to the same
/// number, so what a response writes as its `Content-Length` reads back as
/// the body's length.
pub proof fn lemma_decimal_parses_back(n: usize)
    ensures
        parsed_usize(decimal_text(n as nat)) == Some(n as int),
{
    lemma_decimal_text(n as nat);
    let d = decimal_text(n as nat);
    assert(is_digit_char(d[0]));
    assert(unsigned_digits(d) == d);
}

// ---------------------------------------------------------------------------
// Case mapping
// ---------------------------------------------------------------------------

/// What `str::to_lowercase` returns for a string (full Unicode case mapping).
pub uninterp spec fn lowercase_of(s: Seq<char>) -> Seq<char>;

/// What `str::to_uppercase` returns for a string (full Unicode case mapping).
pub uninterp spec fn uppercase_of(s: Seq<char>) -> Seq<char>;

/// `A`..`Z` mapped to `a`..`z`, every other character unchanged.
pub open spec fn ascii_lower_char(c: char) -> char {
    if 65 <= (c as u32) && (c as u32) <= 90 {
        ((c as u32) + 32) as char
    } else {
        c
    }
}

/// `a`..`z` mapped to `A`..`Z`, every other character unchanged.
pub open spec fn ascii_upper_char(c: char) -> char {
    if 97 <= (c as u32) && (c as u32) <= 122 {
        ((c as u32) - 32) as char
    } else {
        c
    }
}

/// The ASCII lowercase of every character.
pub open spec fn ascii_lower(s: Seq<char>) -> Seq<char> {
    s.map_values(|c: char| ascii_lower_char(c))
}

/// The ASCII uppercase of every character.
pub open spec fn ascii_upper(s: Seq<char>) -> Seq<char> {
    s.map_values(|c: char| ascii_upper_char(c))
}

/// The lower-case of a text: `A`..`Z` mapped to `a`..`z` on ASCII text, the
/// standard library's Unicode mapping otherwise.
pub open spec fn lower_text(s: Seq<char>) -> Seq<char> {
    if vstd::utf8::is_ascii_chars(s) {
        ascii_lower(s)
    } else {
        lowercase_of(s)
    }
}

/// The upper-case of a text: `a`..`z` mapped to `A`..`Z` on ASCII text, the
/// standard library's Unicode mapping otherwise.
pub open spec fn upper_text(s: Seq<char>) -> Seq<char> {
    if vstd::utf8::is_ascii_chars(s) {
        ascii_upper(s)
    } else {
        uppercase_of(s)
    }
}

/// `str::to_lowercase`. Its result is named `lowercase_of`; on ASCII text
/// it maps `A`..`Z` to `a`..`z` and keeps every other character, as the
/// standard library documents. Beyond ASCII, the Unicode case tables decide,
/// and nothing more is stated about them here.
#[verifier::external_body]
pub(crate) fn to_lowercase(s: &str) -> (r: String)
    ensures
        r@ == lowercase_of(s@),
        vstd::utf8::is_ascii_chars(s@) ==> r@ == ascii_lower(s@),
{
    s.to_lowercase()
}

/// `str::to_uppercase`. Its result is named `uppercase_of`; on ASCII text
/// it maps `a`..`z` to `A`..`Z` and keeps every other character, as the
/// standard library documents. Beyond ASCII, the Unicode case tables decide,
/// and nothing more is stated about them here.
#[verifier::external_body]
pub(crate) fn to_uppercase(s: &str) -> (r: String)
    ensures
        r@ == uppercase_of(s@),
        vstd::utf8::is_ascii_chars(s@) ==> r@ == ascii_upper(s@),
{
    s.to_uppercase()
}

} // verus!
