//! Character-level helpers shared by the parsers, with their specifications.
//!
//! Text is handled as sequences of `char`; a region of a text is a pair of
//! character indices `[start, end)` into a `Vec<char>` holding the text.

use vstd::prelude::*;

verus! {

broadcast use vstd::string::group_string_axioms;

/// Unicode `White_Space`, the set that `char::is_whitespace` recognises.
pub open spec fn is_ws(c: char) -> bool {
    ||| ('\u{9}' <= c && c <= '\u{d}')
    ||| c == ' '
    ||| c == '\u{85}'
    ||| c == '\u{a0}'
    ||| c == '\u{1680}'
    ||| ('\u{2000}' <= c && c <= '\u{200a}')
    ||| c == '\u{2028}'
    ||| c == '\u{2029}'
    ||| c == '\u{202f}'
    ||| c == '\u{205f}'
    ||| c == '\u{3000}'
}

/// `s` without its leading white space.
pub open spec fn trim_start(s: Seq<char>) -> Seq<char>
    decreases s.len(),
{
    if s.len() > 0 && is_ws(s[0]) {
        trim_start(s.drop_first())
    } else {
        s
    }
}

/// `s` without its trailing white space.
pub open spec fn trim_end(s: Seq<char>) -> Seq<char>
    decreases s.len(),
{
    if s.len() > 0 && is_ws(s.last()) {
        trim_end(s.drop_last())
    } else {
        s
    }
}

/// `s` without leading and trailing white space (what `str::trim` returns).
pub open spec fn trim(s: Seq<char>) -> Seq<char> {
    trim_end(trim_start(s))
}

/// ASCII upper-case letters mapped to lower case, every other character kept.
pub open spec fn ascii_lower(c: char) -> char {
    if 'A' <= c && c <= 'Z' {
        ((c as int) + 32) as char
    } else {
        c
    }
}

/// Equality up to ASCII case (what `str::eq_ignore_ascii_case` decides).
pub open spec fn eq_ignore_ascii_case(a: Seq<char>, b: Seq<char>) -> bool {
    &&& a.len() == b.len()
    &&& forall|i: int| 0 <= i < a.len() ==> ascii_lower(#[trigger] a[i]) == ascii_lower(b[i])
}

/// The index of the first occurrence of `c` in `s`, if any.
pub open spec fn find_first(s: Seq<char>, c: char) -> Option<int>
    decreases s.len(),
{
    if s.len() == 0 {
        None
    } else if s[0] == c {
        Some(0)
    } else {
        match find_first(s.drop_first(), c) {
            Some(i) => Some(i + 1),
            None => None,
        }
    }
}

/// The character of a decimal digit.
pub open spec fn digit_char(d: int) -> char {
    (d + 48) as char
}

/// The decimal notation of `n`, without leading zeros (what `{}` prints).
pub open spec fn decimal(n: nat) -> Seq<char>
    decreases n,
{
    if n < 10 {
        seq![digit_char(n as int)]
    } else {
        decimal(n / 10).push(digit_char((n % 10) as int))
    }
}

/// What is known of `find_first`'s result.
pub proof fn lemma_find_first(s: Seq<char>, c: char)
    ensures
        match find_first(s, c) {
            Some(i) => 0 <= i < s.len() && s[i] == c && forall|j: int| 0 <= j < i ==> s[j] != c,
            None => forall|j: int| 0 <= j < s.len() ==> s[j] != c,
        },
    decreases s.len(),
{
    if s.len() > 0 && s[0] != c {
        lemma_find_first(s.drop_first(), c);
        match find_first(s.drop_first(), c) {
            Some(i) => {
                assert forall|j: int| 0 <= j < i + 1 implies s[j] != c by {
                    if j > 0 {
                        assert(s[j] == s.drop_first()[j - 1]);
                    }
                }
            },
            None => {
                assert forall|j: int| 0 <= j < s.len() implies s[j] != c by {
                    if j > 0 {
                        assert(s[j] == s.drop_first()[j - 1]);
                    }
                }
            },
        }
    }
}

/// A position is the first occurrence exactly when `find_first` names it.
pub proof fn lemma_find_first_at(s: Seq<char>, c: char, i: int)
    requires
        0 <= i < s.len(),
        s[i] == c,
        forall|j: int| 0 <= j < i ==> s[j] != c,
    ensures
        find_first(s, c) == Some(i),
{
    lemma_find_first(s, c);
    match find_first(s, c) {
        Some(k) => {
            if k < i {
                assert(s[k] == c);
            }
        },
        None => {
            assert(s[i] == c);
        },
    }
}

/// The index of the last occurrence of `c` in `s`, if any.
pub open spec fn find_last(s: Seq<char>, c: char) -> Option<int>
    decreases s.len(),
{
    if s.len() == 0 {
        None
    } else if s.last() == c {
        Some(s.len() - 1)
    } else {
        find_last(s.drop_last(), c)
    }
}

/// What is known of `find_last`'s result.
pub proof fn lemma_find_last(s: Seq<char>, c: char)
    ensures
        match find_last(s, c) {
            Some(i) => 0 <= i < s.len() && s[i] == c && forall|j: int| i < j < s.len() ==> s[j] != c,
            None => forall|j: int| 0 <= j < s.len() ==> s[j] != c,
        },
    decreases s.len(),
{
    if s.len() > 0 && s.last() != c {
        lemma_find_last(s.drop_last(), c);
        assert forall|j: int| 0 <= j < s.len() - 1 implies s.drop_last()[j] == s[j] by {}
    }
}

/// A position followed by no further `c` is the one `find_last` names.
pub proof fn lemma_find_last_at(s: Seq<char>, c: char, i: int)
    requires
        0 <= i < s.len(),
        s[i] == c,
        forall|j: int| i < j < s.len() ==> s[j] != c,
    ensures
        find_last(s, c) == Some(i),
{
    lemma_find_last(s, c);
    match find_last(s, c) {
        Some(k) => {
            if k > i {
                assert(s[k] == c);
            }
        },
        None => {
            assert(s[i] == c);
        },
    }
}

/// Whether `c` is white space.
pub fn is_ws_char(c: char) -> (r: bool)
    ensures
        r == is_ws(c),
{
    ('\u{9}' <= c && c <= '\u{d}') || c == ' ' || c == '\u{85}' || c == '\u{a0}' || c
        == '\u{1680}' || ('\u{2000}' <= c && c <= '\u{200a}') || c == '\u{2028}' || c
        == '\u{2029}' || c == '\u{202f}' || c == '\u{205f}' || c == '\u{3000}'
}

/// The characters of a string slice, in order.
pub fn chars_of(s: &str) -> (v: Vec<char>)
    ensures
        v@ == s@,
{
    let mut v: Vec<char> = Vec::new();
    for c in it: s.chars()
        invariant
            v@ == it.seq().take(it.index()),
    {
        v.push(c);
    }
    v
}

/// The region of `v[start..end]` that remains once white space is trimmed from both ends.
pub fn trim_span(v: &Vec<char>, start: usize, end: usize) -> (r: (usize, usize))
    requires
        start <= end <= v@.len(),
    ensures
        start <= r.0 <= r.1 <= end,
        v@.subrange(r.0 as int, r.1 as int) == trim(v@.subrange(start as int, end as int)),
{
    let mut i = start;
    while i < end && is_ws_char(v[i])
        invariant
            start <= i <= end <= v@.len(),
            trim_start(v@.subrange(start as int, end as int)) == trim_start(
                v@.subrange(i as int, end as int),
            ),
        decreases end - i,
    {
        assert(v@.subrange(i as int, end as int).drop_first() =~= v@.subrange(
            i + 1,
            end as int,
        ));
        i = i + 1;
    }
    assert(trim_start(v@.subrange(i as int, end as int)) == v@.subrange(i as int, end as int));
    let mut j = end;
    while j > i && is_ws_char(v[j - 1])
        invariant
            start <= i <= j <= end <= v@.len(),
            trim_end(v@.subrange(i as int, end as int)) == trim_end(
                v@.subrange(i as int, j as int),
            ),
        decreases j - i,
    {
        assert(v@.subrange(i as int, j as int).drop_last() =~= v@.subrange(i as int, j - 1));
        j = j - 1;
    }
    (i, j)
}

/// Whether `v[start..end]` equals `w` up to ASCII case.
pub fn span_eq_ignore_ascii_case(v: &Vec<char>, start: usize, end: usize, w: &Vec<char>) -> (r:
    bool)
    requires
        start <= end <= v@.len(),
    ensures
        r == eq_ignore_ascii_case(v@.subrange(start as int, end as int), w@),
{
    if end - start != w.len() {
        return false;
    }
    let mut k: usize = 0;
    while k < w.len()
        invariant
            end - start == w@.len(),
            start <= end <= v@.len(),
            k <= w@.len(),
            forall|i: int|
                0 <= i < k ==> ascii_lower(#[trigger] v@.subrange(start as int, end as int)[i])
                    == ascii_lower(w@[i]),
        decreases w@.len() - k,
    {
        let a = v[start + k];
        let b = w[k];
        let la = if 'A' <= a && a <= 'Z' {
            ((a as u32) + 32) as u8 as char
        } else {
            a
        };
        let lb = if 'A' <= b && b <= 'Z' {
            ((b as u32) + 32) as u8 as char
        } else {
            b
        };
        if la != lb {
            assert(v@.subrange(start as int, end as int)[k as int] == a);
            return false;
        }
        k = k + 1;
    }
    true
}

/// Whether `v[start..end]` is exactly `w`.
pub fn span_eq(v: &Vec<char>, start: usize, end: usize, w: &Vec<char>) -> (r: bool)
    requires
        start <= end <= v@.len(),
    ensures
        r == (v@.subrange(start as int, end as int) == w@),
{
    if end - start != w.len() {
        return false;
    }
    let mut k: usize = 0;
    while k < w.len()
        invariant
            end - start == w@.len(),
            start <= end <= v@.len(),
            k <= w@.len(),
            forall|i: int| 0 <= i < k ==> v@[start + i] == w@[i],
        decreases w@.len() - k,
    {
        if v[start + k] != w[k] {
            assert(v@.subrange(start as int, end as int)[k as int] != w@[k as int]);
            return false;
        }
        k = k + 1;
    }
    assert(v@.subrange(start as int, end as int) =~= w@);
    true
}

/// Whether `w` begins `v[start..end]`.
pub fn span_starts_with(v: &Vec<char>, start: usize, end: usize, w: &Vec<char>) -> (r: bool)
    requires
        start <= end <= v@.len(),
    ensures
        r == w@.is_prefix_of(v@.subrange(start as int, end as int)),
{
    if end - start < w.len() {
        return false;
    }
    let r = span_eq(v, start, start + w.len(), w);
    assert(v@.subrange(start as int, end as int).subrange(0, w@.len() as int) =~= v@.subrange(
        start as int,
        start + w@.len(),
    ));
    r
}

/// Whether `w` ends `v[start..end]`.
pub fn span_ends_with(v: &Vec<char>, start: usize, end: usize, w: &Vec<char>) -> (r: bool)
    requires
        start <= end <= v@.len(),
    ensures
        r == w@.is_suffix_of(v@.subrange(start as int, end as int)),
{
    if end - start < w.len() {
        return false;
    }
    let r = span_eq(v, end - w.len(), end, w);
    assert(v@.subrange(start as int, end as int).subrange(
        (end - start) - w@.len(),
        (end - start) as int,
    ) =~= v@.subrange(end - w@.len(), end as int));
    r
}

/// The characters `v[start..end]`, as a vector of their own.
pub fn sub_chars(v: &Vec<char>, start: usize, end: usize) -> (r: Vec<char>)
    requires
        start <= end <= v@.len(),
    ensures
        r@ == v@.subrange(start as int, end as int),
{
    let mut r: Vec<char> = Vec::new();
    let mut i = start;
    while i < end
        invariant
            start <= i <= end <= v@.len(),
            r@ == v@.subrange(start as int, i as int),
        decreases end - i,
    {
        r.push(v[i]);
        assert(v@.subrange(start as int, i + 1) =~= v@.subrange(start as int, i as int).push(v@[i as int]));
        i = i + 1;
    }
    r
}

/// The characters of `s` with white space trimmed from both ends.
pub fn trimmed_chars(s: &str) -> (r: Vec<char>)
    ensures
        r@ == trim(s@),
{
    let v = chars_of(s);
    let (a, b) = trim_span(&v, 0, v.len());
    assert(v@.subrange(0, v@.len() as int) =~= v@);
    sub_chars(&v, a, b)
}

/// Whether two string slices hold the same characters.
pub fn str_eq(a: &str, b: &str) -> (r: bool)
    ensures
        r == (a@ == b@),
{
    let va = chars_of(a);
    let vb = chars_of(b);
    assert(va@.subrange(0, va@.len() as int) =~= va@);
    span_eq(&va, 0, va.len(), &vb)
}

/// The first position of `c` in `v[start..end]`, as an index into `v`.
pub fn find_in_span(v: &Vec<char>, start: usize, end: usize, c: char) -> (r: Option<usize>)
    requires
        start <= end <= v@.len(),
    ensures
        match r {
            Some(i) => start <= i < end && find_first(v@.subrange(start as int, end as int), c)
                == Some(i - start),
            None => find_first(v@.subrange(start as int, end as int), c) == None::<int>,
        },
{
    let ghost s = v@.subrange(start as int, end as int);
    let mut i = start;
    while i < end
        invariant
            start <= i <= end <= v@.len(),
            s == v@.subrange(start as int, end as int),
            forall|j: int| 0 <= j < i - start ==> s[j] != c,
        decreases end - i,
    {
        if v[i] == c {
            proof {
                lemma_find_first_at(s, c, i - start);
            }
            return Some(i);
        }
        i = i + 1;
    }
    proof {
        lemma_find_first(s, c);
        if find_first(s, c) is Some {
            let k = find_first(s, c)->0;
            assert(s[k] == c);
        }
    }
    None
}

/// The decimal notation of `n`.
pub fn decimal_string(n: u64) -> (s: String)
    ensures
        s@ == decimal(n as nat),
    decreases n,
{
    let digits = "0123456789";
    proof {
        reveal_strlit("0123456789");
    }
    let d = (n % 10) as usize;
    let last = digits.substring_char(d, d + 1);
    assert(last@ =~= seq![digit_char(d as int)]);
    if n < 10 {
        String::from_str(last)
    } else {
        let mut s = decimal_string(n / 10);
        s.append(last);
        s
    }
}

proof fn lemma_trim_start_at(s: Seq<char>) -> (a: int)
    ensures
        0 <= a <= s.len(),
        trim_start(s) == s.skip(a),
        forall|i: int| 0 <= i < a ==> is_ws(#[trigger] s[i]),
        a < s.len() ==> !is_ws(s[a]),
    decreases s.len(),
{
    if s.len() > 0 && is_ws(s[0]) {
        let r = lemma_trim_start_at(s.drop_first());
        assert(s.drop_first().skip(r) =~= s.skip(r + 1));
        assert forall|i: int| 0 <= i < r + 1 implies is_ws(#[trigger] s[i]) by {
            if i > 0 {
                assert(s[i] == s.drop_first()[i - 1]);
            }
        }
        if r + 1 < s.len() {
            assert(s[r + 1] == s.drop_first()[r]);
        }
        r + 1
    } else {
        assert(s.skip(0) =~= s);
        0
    }
}

proof fn lemma_trim_end_at(s: Seq<char>) -> (b: int)
    ensures
        0 <= b <= s.len(),
        trim_end(s) == s.take(b),
        forall|i: int| b <= i < s.len() ==> is_ws(#[trigger] s[i]),
        b > 0 ==> !is_ws(s[b - 1]),
    decreases s.len(),
{
    if s.len() > 0 && is_ws(s.last()) {
        let r = lemma_trim_end_at(s.drop_last());
        assert(s.drop_last().take(r) =~= s.take(r));
        assert forall|i: int| r <= i < s.len() implies is_ws(#[trigger] s[i]) by {
            if i < s.len() - 1 {
                assert(s[i] == s.drop_last()[i]);
            }
        }
        if r > 0 {
            assert(s[r - 1] == s.drop_last()[r - 1]);
        }
        r
    } else {
        assert(s.take(s.len() as int) =~= s);
        s.len() as int
    }
}

/// Trimming removes white space at both ends and nothing else: what is left
/// is one stretch of the text, everything before and after it is white
/// space, and it neither begins nor ends with white space.
pub proof fn law_trim_strips_ends(s: Seq<char>)
    ensures
        exists|a: int, b: int|
            {
                &&& 0 <= a <= b <= s.len()
                &&& trim(s) == s.subrange(a, b)
                &&& forall|i: int| 0 <= i < a ==> is_ws(#[trigger] s[i])
                &&& forall|i: int| b <= i < s.len() ==> is_ws(#[trigger] s[i])
                &&& a < b ==> !is_ws(s[a]) && !is_ws(s[b - 1])
            },
{
    let a = lemma_trim_start_at(s);
    let t = s.skip(a);
    let c = lemma_trim_end_at(t);
    let b = a + c;
    assert(trim(s) == t.take(c));
    assert(t.take(c) =~= s.subrange(a, b));
    assert forall|i: int| b <= i < s.len() implies is_ws(#[trigger] s[i]) by {
        assert(s[i] == t[i - a]);
    }
    if a < b {
        assert(s[b - 1] == t[c - 1]);
    }
}

} // verus!
