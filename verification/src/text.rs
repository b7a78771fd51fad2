//! Character-level helpers over the views of strings (`Seq<char>`): whitespace,
//! ASCII case, searching and trimming by position, and building `String`s.

use vstd::prelude::*;

verus! {

/// Trusted: std's `String::push`, which its documentation says appends the given `char`
/// to the end of the `String`; the contract claims exactly that of the string's
/// characters, and nothing is proved of it here.
pub assume_specification[ String::push ](s: &mut String, ch: char)
    ensures
        final(s)@ == old(s)@.push(ch),
;

/// A carriage return or a line feed.
pub open spec fn is_crlf(c: char) -> bool {
    c == '\r' || c == '\n'
}

/// The characters that `char::is_whitespace` accepts: the Unicode `White_Space` property.
pub open spec fn is_ws(c: char) -> bool {
    ||| c == ' '
    ||| ('\u{9}' <= c && c <= '\u{d}')
    ||| c == '\u{85}'
    ||| c == '\u{a0}'
    ||| c == '\u{1680}'
    ||| ('\u{2000}' <= c && c <= '\u{200a}')
    ||| c == '\u{2028}'
    ||| c == '\u{2029}'
    ||| c == '\u{202f}'
    ||| c == '\u{205f}'
    ||| c == '\u{3000}'
}

/// The ASCII upper-case form of a character; other characters are unchanged.
pub open spec fn ascii_upper(c: char) -> char {
    if 'a' <= c && c <= 'z' {
        ((c as u32) - 32) as char
    } else {
        c
    }
}

/// The ASCII upper-case form of a string.
pub open spec fn upper(s: Seq<char>) -> Seq<char> {
    s.map_values(|c: char| ascii_upper(c))
}

/// Whether every character of `s` is whitespace (true of the empty string).
pub open spec fn all_ws(s: Seq<char>) -> bool {
    forall|i: int| 0 <= i < s.len() ==> is_ws(#[trigger] s[i])
}

/// Whether `s` holds the character `c`.
pub open spec fn has_char(s: Seq<char>, c: char) -> bool {
    exists|i: int| 0 <= i < s.len() && s[i] == c
}

/// The first position at or after `i` that holds `c`, or `s.len()` if none does.
pub open spec fn char_from(s: Seq<char>, i: int, c: char) -> int
    decreases s.len() - i,
{
    if i >= s.len() {
        s.len() as int
    } else if s[i] == c {
        i
    } else {
        char_from(s, i + 1, c)
    }
}

/// The first position at or after `i` that does not hold whitespace, or `i` if `i` is
/// already at or past the end.
pub open spec fn skip_ws(s: Seq<char>, i: int) -> int
    decreases s.len() - i,
{
    if i < s.len() && is_ws(s[i]) {
        skip_ws(s, i + 1)
    } else {
        i
    }
}

/// The first position at or after `i` that holds neither a carriage return nor a line feed.
pub open spec fn skip_crlf(s: Seq<char>, i: int) -> int
    decreases s.len() - i,
{
    if i < s.len() && is_crlf(s[i]) {
        skip_crlf(s, i + 1)
    } else {
        i
    }
}

/// The position just after the last character before `j` that is neither a carriage
/// return nor a line feed, or 0.
pub open spec fn back_crlf(s: Seq<char>, j: int) -> int
    decreases j,
{
    if j > 0 && is_crlf(s[j - 1]) {
        back_crlf(s, j - 1)
    } else {
        j
    }
}

/// `s` without its leading and trailing carriage returns and line feeds.
pub open spec fn trim_crlf(s: Seq<char>) -> Seq<char> {
    let a = skip_crlf(s, 0);
    if a >= s.len() {
        Seq::empty()
    } else {
        s.subrange(a, back_crlf(s, s.len() as int))
    }
}

pub proof fn lemma_char_from_bounds(s: Seq<char>, i: int, c: char)
    requires
        0 <= i,
    ensures
        i <= char_from(s, i, c) || (i > s.len() && char_from(s, i, c) == s.len()),
        char_from(s, i, c) <= s.len() || char_from(s, i, c) == i,
        i <= s.len() ==> i <= char_from(s, i, c) <= s.len(),
        char_from(s, i, c) < s.len() ==> s[char_from(s, i, c)] == c,
        forall|k: int| i <= k < char_from(s, i, c) ==> s[k] != c,
    decreases s.len() - i,
{
    if i < s.len() && s[i] != c {
        lemma_char_from_bounds(s, i + 1, c);
    }
}

pub proof fn lemma_skip_ws_bounds(s: Seq<char>, i: int)
    ensures
        i <= skip_ws(s, i),
        i <= s.len() ==> skip_ws(s, i) <= s.len(),
        skip_ws(s, i) < s.len() ==> !is_ws(s[skip_ws(s, i)]),
        forall|k: int| i <= k < skip_ws(s, i) ==> is_ws(s[k]),
    decreases s.len() - i,
{
    if i < s.len() && is_ws(s[i]) {
        lemma_skip_ws_bounds(s, i + 1);
    }
}

pub proof fn lemma_skip_crlf_bounds(s: Seq<char>, i: int)
    ensures
        i <= skip_crlf(s, i),
        i <= s.len() ==> skip_crlf(s, i) <= s.len(),
        skip_crlf(s, i) < s.len() ==> !is_crlf(s[skip_crlf(s, i)]),
        forall|k: int| i <= k < skip_crlf(s, i) ==> is_crlf(s[k]),
    decreases s.len() - i,
{
    if i < s.len() && is_crlf(s[i]) {
        lemma_skip_crlf_bounds(s, i + 1);
    }
}

pub proof fn lemma_back_crlf_bounds(s: Seq<char>, j: int)
    requires
        j <= s.len(),
    ensures
        back_crlf(s, j) <= j,
        0 <= j ==> 0 <= back_crlf(s, j),
        back_crlf(s, j) > 0 ==> !is_crlf(s[back_crlf(s, j) - 1]),
        forall|k: int| back_crlf(s, j) <= k < j ==> is_crlf(s[k]),
    decreases j,
{
    if j > 0 && is_crlf(s[j - 1]) {
        lemma_back_crlf_bounds(s, j - 1);
    }
}

/// When the characters from `i` up to `k` are not `c` and `k` holds `c` (or is the end),
/// the first `c` from `i` is at `k`.
pub proof fn lemma_char_from_at(s: Seq<char>, i: int, k: int, c: char)
    requires
        0 <= i <= k <= s.len(),
        forall|m: int| i <= m < k ==> s[m] != c,
        k < s.len() ==> s[k] == c,
    ensures
        char_from(s, i, c) == k,
    decreases k - i,
{
    if i < k {
        lemma_char_from_at(s, i + 1, k, c);
    }
}

/// Whether `c` is whitespace, as `char::is_whitespace` decides it.
pub fn is_whitespace_char(c: char) -> (r: bool)
    ensures
        r == is_ws(c),
{
    c == ' ' || ('\u{9}' <= c && c <= '\u{d}') || c == '\u{85}' || c == '\u{a0}' || c
        == '\u{1680}' || ('\u{2000}' <= c && c <= '\u{200a}') || c == '\u{2028}' || c
        == '\u{2029}' || c == '\u{202f}' || c == '\u{205f}' || c == '\u{3000}'
}

/// The ASCII upper-case form of `c`.
pub fn upper_char(c: char) -> (r: char)
    ensures
        r == ascii_upper(c),
{
    if 'a' <= c && c <= 'z' {
        let b: u8 = c as u8;
        (b - 32) as char
    } else {
        c
    }
}

/// The characters of `s`, in order.
pub fn chars_of(s: &str) -> (res: Vec<char>)
    ensures
        res@ == s@,
{
    let mut res: Vec<char> = Vec::new();
    for c in it: s.chars()
        invariant
            res@ == it.seq().take(it.index() as int),
    {
        res.push(c);
    }
    res
}

/// A string holding `v[from..to]`.
pub fn string_from_range(v: &Vec<char>, from: usize, to: usize) -> (res: String)
    requires
        from <= to <= v.len(),
    ensures
        res@ == v@.subrange(from as int, to as int),
{
    let mut res = String::new();
    let mut i = from;
    while i < to
        invariant
            from <= i <= to <= v.len(),
            res@ == v@.subrange(from as int, i as int),
        decreases to - i,
    {
        res.push(v[i]);
        i = i + 1;
    }
    res
}

/// A string holding the ASCII upper-case form of `v[from..to]`.
pub fn upper_string_from_range(v: &Vec<char>, from: usize, to: usize) -> (res: String)
    requires
        from <= to <= v.len(),
    ensures
        res@ == upper(v@.subrange(from as int, to as int)),
{
    let mut res = String::new();
    let mut i = from;
    while i < to
        invariant
            from <= i <= to <= v.len(),
            res@ == upper(v@.subrange(from as int, i as int)),
        decreases to - i,
    {
        let c = upper_char(v[i]);
        proof {
            assert(v@.subrange(from as int, i + 1) == v@.subrange(from as int, i as int).push(
                v@[i as int],
            ));
        }
        res.push(c);
        i = i + 1;
        proof {
            assert(res@ =~= upper(v@.subrange(from as int, i as int)));
        }
    }
    res
}

/// The ASCII upper-case form of `s`.
pub fn upper_string(s: &str) -> (res: String)
    ensures
        res@ == upper(s@),
{
    let v = chars_of(s);
    assert(v@.subrange(0, v@.len() as int) =~= v@);
    upper_string_from_range(&v, 0, v.len())
}

/// The first position at or after `i` in `v` that holds `c`, or `v.len()`.
pub fn find_char(v: &Vec<char>, i: usize, c: char) -> (r: usize)
    requires
        i <= v.len(),
    ensures
        r == char_from(v@, i as int, c),
{
    let mut k = i;
    while k < v.len() && v[k] != c
        invariant
            i <= k <= v.len(),
            char_from(v@, i as int, c) == char_from(v@, k as int, c),
        decreases v.len() - k,
    {
        k = k + 1;
    }
    k
}

/// The first position at or after `i` in `v` that does not hold whitespace.
pub fn skip_whitespace(v: &Vec<char>, i: usize) -> (r: usize)
    requires
        i <= v.len(),
    ensures
        r == skip_ws(v@, i as int),
{
    let mut k = i;
    while k < v.len() && is_whitespace_char(v[k])
        invariant
            i <= k <= v.len(),
            skip_ws(v@, i as int) == skip_ws(v@, k as int),
        decreases v.len() - k,
    {
        k = k + 1;
    }
    k
}

/// Whether every character of `v` is whitespace.
pub fn all_whitespace(v: &Vec<char>) -> (r: bool)
    ensures
        r == all_ws(v@),
{
    let mut k: usize = 0;
    while k < v.len()
        invariant
            k <= v.len(),
            forall|m: int| 0 <= m < k ==> is_ws(#[trigger] v@[m]),
        decreases v.len() - k,
    {
        if !is_whitespace_char(v[k]) {
            return false;
        }
        k = k + 1;
    }
    true
}

/// Whether `v` holds the character `c`.
pub fn contains_char(v: &Vec<char>, c: char) -> (r: bool)
    ensures
        r == has_char(v@, c),
{
    let mut k: usize = 0;
    while k < v.len()
        invariant
            k <= v.len(),
            forall|m: int| 0 <= m < k ==> v@[m] != c,
        decreases v.len() - k,
    {
        if v[k] == c {
            return true;
        }
        k = k + 1;
    }
    false
}

/// Whether the two strings hold the same characters.
pub fn same_text(a: &str, b: &str) -> (r: bool)
    ensures
        r == (a@ == b@),
{
    let va = chars_of(a);
    let vb = chars_of(b);
    if va.len() != vb.len() {
        return false;
    }
    let mut k: usize = 0;
    while k < va.len()
        invariant
            k <= va.len() == vb.len(),
            va@ == a@,
            vb@ == b@,
            forall|m: int| 0 <= m < k ==> va@[m] == vb@[m],
        decreases va.len() - k,
    {
        if va[k] != vb[k] {
            assert(va@[k as int] != vb@[k as int]);
            return false;
        }
        k = k + 1;
    }
    assert(va@ =~= vb@);
    true
}

/// Whether the string begins with the character `c`.
pub fn starts_with_char(s: &str, c: char) -> (r: bool)
    ensures
        r == (s@.len() > 0 && s@[0] == c),
{
    let v = chars_of(s);
    v.len() > 0 && v[0] == c
}

/// Appends the characters of `s` to `out`.
pub fn push_text(out: &mut String, s: &str)
    ensures
        final(out)@ == old(out)@ + s@,
{
    let v = chars_of(s);
    let mut k: usize = 0;
    while k < v.len()
        invariant
            k <= v.len(),
            out@ == old(out)@ + v@.subrange(0, k as int),
        decreases v.len() - k,
    {
        out.push(v[k]);
        k = k + 1;
        assert(out@ =~= old(out)@ + v@.subrange(0, k as int));
    }
    assert(v@.subrange(0, v@.len() as int) =~= v@);
}

/// The parts of `s` from position `i` on, split at each `c` (as `str::split` splits).
pub open spec fn split_from(s: Seq<char>, i: int, c: char) -> Seq<Seq<char>>
    decreases s.len() - i,
{
    if i < 0 || i > s.len() {
        Seq::empty()
    } else {
        let k = char_from(s, i, c);
        if k < s.len() {
            proof {
                lemma_char_from_bounds(s, i, c);
            }
            seq![s.subrange(i, k)] + split_from(s, k + 1, c)
        } else {
            seq![s.subrange(i, s.len() as int)]
        }
    }
}

/// The parts of `s` split at each `c`; an empty string gives one empty part.
pub open spec fn split_on(s: Seq<char>, c: char) -> Seq<Seq<char>> {
    split_from(s, 0, c)
}

pub open spec fn opt_view(o: Option<String>) -> Option<Seq<char>> {
    match o {
        Some(s) => Some(s@),
        None => None,
    }
}

pub open spec fn strings_view(v: Seq<String>) -> Seq<Seq<char>> {
    v.map_values(|s: String| s@)
}

/// The parts of `s` split at each `c`.
pub fn split_string(s: &str, c: char) -> (res: Vec<String>)
    ensures
        strings_view(res@) == split_on(s@, c),
{
    let v = chars_of(s);
    let mut out: Vec<String> = Vec::new();
    let mut k: usize = 0;
    loop
        invariant
            k <= v.len(),
            v@ == s@,
            strings_view(out@) + split_from(v@, k as int, c) == split_from(v@, 0, c),
        decreases v.len() - k,
    {
        let ghost before = out@;
        let e = find_char(&v, k, c);
        proof {
            lemma_char_from_bounds(v@, k as int, c);
        }
        if e < v.len() {
            let part = string_from_range(&v, k, e);
            out.push(part);
            proof {
                assert(strings_view(out@) =~= strings_view(before) + seq![v@.subrange(k as int, e as int)]);
                assert(strings_view(out@) + split_from(v@, e + 1, c) =~= strings_view(before)
                    + split_from(v@, k as int, c));
            }
            k = e + 1;
        } else {
            let part = string_from_range(&v, k, v.len());
            out.push(part);
            assert(strings_view(out@) =~= strings_view(before) + split_from(v@, k as int, c));
            return out;
        }
    }
}

/// A string holding the characters of `s`.
pub fn owned(s: &str) -> (res: String)
    ensures
        res@ == s@,
{
    let mut r = String::new();
    push_text(&mut r, s);
    r
}

} // verus!
