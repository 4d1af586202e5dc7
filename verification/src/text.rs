//! Verified helpers over strings: characters, Unicode whitespace trimming,
//! substring search and UTF-8 decoding.
use vstd::prelude::*;
use vstd::std_specs::iter::IteratorSpec;
use vstd::utf8::{decode_utf8, encode_utf8, valid_utf8};
use vstd::string::StringSliceAdditionalSpecFns;

verus! {

/// Collects the characters of `s`.
pub fn chars_of(s: &str) -> (v: Vec<char>)
    ensures
        v@ == s@,
{
    let mut it = s.chars();
    let mut v: Vec<char> = Vec::new();
    loop
        invariant
            v@ + it.remaining() == s@,
            it.decrease() is Some,
        decreases it.decrease()->0,
    {
        let ghost before = it.remaining();
        match it.next() {
            Some(c) => {
                v.push(c);
                assert(v@ + it.remaining() =~= s@) by {
                    assert(before =~= seq![c] + it.remaining());
                }
            },
            None => {
                assert(v@ =~= s@);
                return v;
            },
        }
    }
}

/// Copies a string slice into an owned string.
pub fn owned(s: &str) -> (r: String)
    ensures
        r@ == s@,
{
    s.to_owned()
}

/// Appends one character to a string (`String::push`).
#[verifier::external_body]
pub(crate) fn push_char(s: &mut String, c: char)
    ensures
        final(s)@ == old(s)@.push(c),
{
    s.push(c)
}

/// Decodes bytes as UTF-8 with `std::str::from_utf8`: `Some` exactly when
/// the bytes are valid UTF-8, and then the string's bytes are the input.
#[verifier::external_body]
pub(crate) fn str_from_utf8(bytes: &[u8]) -> (r: Option<&str>)
    ensures
        r is Some <==> valid_utf8(bytes@),
        r matches Some(s) ==> s.spec_bytes() == bytes@,
{
    std::str::from_utf8(bytes).ok()
}

/// The characters of a string slice are the UTF-8 decoding of its bytes.
pub proof fn lemma_chars_are_decoded(s: &str)
    ensures
        valid_utf8(s.spec_bytes()),
        s@ == decode_utf8(s.spec_bytes()),
{
    vstd::utf8::encode_utf8_valid_utf8(s@);
    vstd::utf8::encode_utf8_decode_utf8(s@);
}

/// Builds a string from characters.
pub fn string_of(chars: &Vec<char>, from: usize, to: usize) -> (r: String)
    requires
        from <= to <= chars.len(),
    ensures
        r@ == chars@.subrange(from as int, to as int),
{
    let mut r = String::new();
    let mut i = from;
    while i < to
        invariant
            from <= i <= to <= chars.len(),
            r@ == chars@.subrange(from as int, i as int),
        decreases to - i,
    {
        push_char(&mut r, chars[i]);
        assert(r@ =~= chars@.subrange(from as int, i + 1));
        i = i + 1;
    }
    r
}

/// Whether `c` has the Unicode `White_Space` property (`char::is_whitespace`).
pub open spec fn is_white_space(c: char) -> bool {
    ||| ('\u{9}' <= c <= '\u{d}')
    ||| c == ' '
    ||| c == '\u{85}'
    ||| c == '\u{a0}'
    ||| c == '\u{1680}'
    ||| ('\u{2000}' <= c <= '\u{200a}')
    ||| c == '\u{2028}'
    ||| c == '\u{2029}'
    ||| c == '\u{202f}'
    ||| c == '\u{205f}'
    ||| c == '\u{3000}'
}

/// Whether `c` has the Unicode `White_Space` property.
pub fn white_space(c: char) -> (r: bool)
    ensures
        r == is_white_space(c),
{
    ('\u{9}' <= c && c <= '\u{d}') || c == ' ' || c == '\u{85}' || c == '\u{a0}' || c == '\u{1680}'
        || ('\u{2000}' <= c && c <= '\u{200a}') || c == '\u{2028}' || c == '\u{2029}' || c
        == '\u{202f}' || c == '\u{205f}' || c == '\u{3000}'
}

/// `s` without its leading white space.
pub open spec fn trim_start(s: Seq<char>) -> Seq<char>
    decreases s.len(),
{
    if s.len() > 0 && is_white_space(s[0]) {
        trim_start(s.drop_first())
    } else {
        s
    }
}

/// `s` without its trailing white space.
pub open spec fn trim_end(s: Seq<char>) -> Seq<char>
    decreases s.len(),
{
    if s.len() > 0 && is_white_space(s.last()) {
        trim_end(s.drop_last())
    } else {
        s
    }
}

/// `s` without leading and trailing white space (`str::trim`).
pub open spec fn trim(s: Seq<char>) -> Seq<char> {
    trim_start(trim_end(s))
}

/// `s` without any trailing `c` (`str::trim_end_matches` with a character).
pub open spec fn strip_trailing(s: Seq<char>, c: char) -> Seq<char>
    decreases s.len(),
{
    if s.len() > 0 && s.last() == c {
        strip_trailing(s.drop_last(), c)
    } else {
        s
    }
}

/// Index of the first occurrence of `pat` in `s` at or after `i`, or -1.
pub open spec fn find_from(s: Seq<char>, pat: Seq<char>, i: int) -> int
    decreases s.len() + 1 - i,
{
    if i < 0 || i + pat.len() > s.len() {
        -1
    } else if s.subrange(i, i + pat.len()) == pat {
        i
    } else {
        find_from(s, pat, i + 1)
    }
}

proof fn lemma_trim_end_take(s: Seq<char>, j: int)
    requires
        0 <= j <= s.len(),
        forall|k: int| j <= k < s.len() ==> is_white_space(#[trigger] s[k]),
        j == 0 || !is_white_space(s[j - 1]),
    ensures
        trim_end(s) == s.take(j),
    decreases s.len() - j,
{
    if j < s.len() {
        assert(s.drop_last().take(j) =~= s.take(j));
        lemma_trim_end_take(s.drop_last(), j);
    } else {
        assert(s.take(j) =~= s);
    }
}

proof fn lemma_trim_start_skip(s: Seq<char>, i: int)
    requires
        0 <= i <= s.len(),
        forall|k: int| 0 <= k < i ==> is_white_space(#[trigger] s[k]),
        i == s.len() || !is_white_space(s[i]),
    ensures
        trim_start(s) == s.skip(i),
    decreases i,
{
    if i > 0 {
        assert(s.drop_first().skip(i - 1) =~= s.skip(i));
        lemma_trim_start_skip(s.drop_first(), i - 1);
    } else {
        assert(s.skip(0) =~= s);
    }
}

/// The bounds of the characters of `chars` from `from` to `to` without
/// leading and trailing white space.
pub fn trim_range(chars: &Vec<char>, from: usize, to: usize) -> (r: (usize, usize))
    requires
        from <= to <= chars.len(),
    ensures
        from <= r.0 <= r.1 <= to,
        chars@.subrange(r.0 as int, r.1 as int) == trim(chars@.subrange(from as int, to as int)),
{
    let ghost s = chars@.subrange(from as int, to as int);
    let mut e = to;
    while e > from && white_space(chars[e - 1])
        invariant
            from <= e <= to <= chars.len(),
            s == chars@.subrange(from as int, to as int),
            forall|k: int| e - from <= k < s.len() ==> is_white_space(#[trigger] s[k]),
        decreases e,
    {
        e = e - 1;
    }
    proof {
        lemma_trim_end_take(s, e - from);
    }
    let ghost t = s.take(e - from);
    let mut b = from;
    while b < e && white_space(chars[b])
        invariant
            from <= b <= e <= to <= chars.len(),
            t == chars@.subrange(from as int, e as int),
            forall|k: int| 0 <= k < b - from ==> is_white_space(#[trigger] t[k]),
        decreases e - b,
    {
        b = b + 1;
    }
    proof {
        assert(t =~= chars@.subrange(from as int, e as int));
        lemma_trim_start_skip(t, b - from);
        assert(t.skip(b - from) =~= chars@.subrange(b as int, e as int));
    }
    (b, e)
}

/// The characters of `s` from `from` to `to`, without leading and trailing
/// white space.
pub fn trimmed(chars: &Vec<char>, from: usize, to: usize) -> (r: String)
    requires
        from <= to <= chars.len(),
    ensures
        r@ == trim(chars@.subrange(from as int, to as int)),
{
    let (b, e) = trim_range(chars, from, to);
    string_of(chars, b, e)
}

proof fn lemma_strip_trailing_take(s: Seq<char>, c: char, j: int)
    requires
        0 <= j <= s.len(),
        forall|k: int| j <= k < s.len() ==> #[trigger] s[k] == c,
        j == 0 || s[j - 1] != c,
    ensures
        strip_trailing(s, c) == s.take(j),
    decreases s.len() - j,
{
    if j < s.len() {
        assert(s.drop_last().take(j) =~= s.take(j));
        lemma_strip_trailing_take(s.drop_last(), c, j);
    } else {
        assert(s.take(j) =~= s);
    }
}

/// The end of the characters of `chars` from `from` to `to` without any
/// trailing `c`.
pub fn strip_trailing_end(chars: &Vec<char>, from: usize, to: usize, c: char) -> (e: usize)
    requires
        from <= to <= chars.len(),
    ensures
        from <= e <= to,
        chars@.subrange(from as int, e as int) == strip_trailing(chars@.subrange(from as int, to as int), c),
{
    let ghost s = chars@.subrange(from as int, to as int);
    let mut e = to;
    while e > from && chars[e - 1] == c
        invariant
            from <= e <= to <= chars.len(),
            s == chars@.subrange(from as int, to as int),
            forall|k: int| e - from <= k < s.len() ==> #[trigger] s[k] == c,
        decreases e,
    {
        e = e - 1;
    }
    proof {
        lemma_strip_trailing_take(s, c, e - from);
        assert(s.take(e - from) =~= chars@.subrange(from as int, e as int));
    }
    e
}

/// Whether `s` begins with `p`.
pub open spec fn starts_with(s: Seq<char>, p: Seq<char>) -> bool {
    p.len() <= s.len() && s.take(p.len() as int) == p
}

/// Whether the characters of `chars` from `from` to `to` begin with `p`.
pub fn range_starts_with(chars: &Vec<char>, from: usize, to: usize, p: &Vec<char>) -> (r: bool)
    requires
        from <= to <= chars.len(),
    ensures
        r == starts_with(chars@.subrange(from as int, to as int), p@),
{
    let ghost s = chars@.subrange(from as int, to as int);
    if p.len() > to - from {
        return false;
    }
    let mut k: usize = 0;
    while k < p.len()
        invariant
            from <= to <= chars.len(),
            p.len() <= to - from,
            s == chars@.subrange(from as int, to as int),
            0 <= k <= p.len(),
            forall|j: int| 0 <= j < k ==> s[j] == p@[j],
        decreases p.len() - k,
    {
        if chars[from + k] != p[k] {
            assert(s.take(p.len() as int)[k as int] != p@[k as int]);
            return false;
        }
        k = k + 1;
    }
    assert(s.take(p.len() as int) =~= p@);
    true
}

/// Index of the first occurrence of `pat` in `chars`, if any.
pub fn find_chars(chars: &Vec<char>, pat: &Vec<char>) -> (r: Option<usize>)
    ensures
        match r {
            Some(i) => i == find_from(chars@, pat@, 0) && i + pat.len() <= chars.len(),
            None => find_from(chars@, pat@, 0) == -1,
        },
{
    let n = chars.len();
    let m = pat.len();
    if m > n {
        return None;
    }
    let mut i: usize = 0;
    while i <= n - m
        invariant
            n == chars.len(),
            m == pat.len(),
            m <= n,
            0 <= i <= n - m + 1,
            find_from(chars@, pat@, 0) == find_from(chars@, pat@, i as int),
        decreases n - i,
    {
        let mut k: usize = 0;
        while k < m && chars[i + k] == pat[k]
            invariant
                n == chars.len(),
                m == pat.len(),
                i + m <= n,
                0 <= k <= m,
                forall|j: int| 0 <= j < k ==> chars@[i + j] == pat@[j],
            decreases m - k,
        {
            k = k + 1;
        }
        if k == m {
            assert(chars@.subrange(i as int, i + m) =~= pat@);
            return Some(i);
        }
        assert(chars@.subrange(i as int, i + m)[k as int] != pat@[k as int]);
        i = i + 1;
    }
    None
}

} // verus!
