//! Character-level helpers over `Seq<char>` and their executable forms.
//!
//! Markup is scanned as a sequence of characters. The helpers here are the
//! small string operations the scanner needs (prefix tests, searches, ASCII
//! case folding), each with the specification it is proved against.

use vstd::prelude::*;

verus! {

/// ASCII whitespace as `u8::is_ascii_whitespace` defines it.
pub open spec fn is_ws(c: char) -> bool {
    c == ' ' || c == '\t' || c == '\n' || c == '\x0C' || c == '\r'
}

/// Whitespace as `char::is_whitespace` (the Unicode `White_Space` property) defines it.
pub open spec fn is_unicode_ws(c: char) -> bool {
    ('\t' <= c && c <= '\r') || c == ' ' || c == '\u{85}' || c == '\u{A0}' || c == '\u{1680}'
        || ('\u{2000}' <= c && c <= '\u{200A}') || c == '\u{2028}' || c == '\u{2029}' || c
        == '\u{202F}' || c == '\u{205F}' || c == '\u{3000}'
}

pub open spec fn is_upper(c: char) -> bool {
    'A' <= c && c <= 'Z'
}

pub open spec fn is_alpha(c: char) -> bool {
    is_upper(c) || ('a' <= c && c <= 'z')
}

pub open spec fn is_alnum(c: char) -> bool {
    is_alpha(c) || ('0' <= c && c <= '9')
}

/// `char::to_ascii_lowercase`.
pub open spec fn lower(c: char) -> char {
    if is_upper(c) {
        ((c as u32) + 32) as char
    } else {
        c
    }
}

/// `str::to_ascii_lowercase`.
pub open spec fn lower_seq(s: Seq<char>) -> Seq<char> {
    s.map_values(|c: char| lower(c))
}

/// `s[i..]` starts with `p`.
pub open spec fn matches_at(s: Seq<char>, i: int, p: Seq<char>) -> bool {
    0 <= i && i + p.len() <= s.len() && s.subrange(i, i + p.len()) == p
}

/// `s[i..]` starts with `p`, ignoring ASCII case.
pub open spec fn matches_at_ic(s: Seq<char>, i: int, p: Seq<char>) -> bool {
    0 <= i && i + p.len() <= s.len() && lower_seq(s.subrange(i, i + p.len())) == lower_seq(p)
}

pub open spec fn starts_with(s: Seq<char>, p: Seq<char>) -> bool {
    matches_at(s, 0, p)
}

/// `str::eq_ignore_ascii_case`.
pub open spec fn eq_ic(a: Seq<char>, b: Seq<char>) -> bool {
    lower_seq(a) == lower_seq(b)
}

/// First index at or after `from` where `p` occurs (`str::find` on `s[from..]`).
pub open spec fn find_from(s: Seq<char>, from: int, p: Seq<char>) -> Option<int>
    decreases s.len() + 1 - from,
{
    if from < 0 || from + p.len() > s.len() {
        None
    } else if matches_at(s, from, p) {
        Some(from)
    } else {
        find_from(s, from + 1, p)
    }
}

/// First index at or after `from` where `p` occurs, ignoring ASCII case.
pub open spec fn find_from_ic(s: Seq<char>, from: int, p: Seq<char>) -> Option<int>
    decreases s.len() + 1 - from,
{
    if from < 0 || from + p.len() > s.len() {
        None
    } else if matches_at_ic(s, from, p) {
        Some(from)
    } else {
        find_from_ic(s, from + 1, p)
    }
}

/// Index just past the first `p` at or after `from`, or the end of `s`.
pub open spec fn skip_past(s: Seq<char>, from: int, p: Seq<char>) -> int {
    match find_from(s, from, p) {
        Some(i) => i + p.len(),
        None => s.len() as int,
    }
}

/// First index at or after `i` that is not ASCII whitespace.
pub open spec fn skip_ws(s: Seq<char>, i: int) -> int
    decreases s.len() - i,
{
    if i < s.len() && i >= 0 && is_ws(s[i]) {
        skip_ws(s, i + 1)
    } else {
        i
    }
}

/// Length of the prefix of `s` made of spaces and tabs.
pub open spec fn indent_len(s: Seq<char>, i: int) -> int
    decreases s.len() - i,
{
    if 0 <= i < s.len() && (s[i] == ' ' || s[i] == '\t') {
        indent_len(s, i + 1)
    } else {
        i
    }
}

/// Whether every character of `s` is Unicode whitespace (`s.trim().is_empty()`).
pub open spec fn all_unicode_ws(s: Seq<char>) -> bool {
    forall|i: int| 0 <= i < s.len() ==> is_unicode_ws(#[trigger] s[i])
}

/// Bytes that `c` takes in UTF-8.
pub open spec fn utf8_width(c: char) -> nat {
    if (c as u32) < 0x80 {
        1
    } else if (c as u32) < 0x800 {
        2
    } else if (c as u32) < 0x10000 {
        3
    } else {
        4
    }
}

/// Length in bytes of the UTF-8 encoding of `s`.
pub open spec fn utf8_len(s: Seq<char>) -> nat
    decreases s.len(),
{
    if s.len() == 0 {
        0
    } else {
        utf8_len(s.drop_last()) + utf8_width(s.last())
    }
}

/// `a + b` clamped to `usize::MAX`.
pub open spec fn sat(x: int) -> int {
    if x > usize::MAX {
        usize::MAX as int
    } else {
        x
    }
}

pub fn is_ws_exec(c: char) -> (b: bool)
    ensures
        b == is_ws(c),
{
    c == ' ' || c == '\t' || c == '\n' || c == '\x0C' || c == '\r'
}

pub fn is_unicode_ws_exec(c: char) -> (b: bool)
    ensures
        b == is_unicode_ws(c),
{
    ('\t' <= c && c <= '\r') || c == ' ' || c == '\u{85}' || c == '\u{A0}' || c == '\u{1680}'
        || ('\u{2000}' <= c && c <= '\u{200A}') || c == '\u{2028}' || c == '\u{2029}' || c
        == '\u{202F}' || c == '\u{205F}' || c == '\u{3000}'
}

pub fn is_upper_exec(c: char) -> (b: bool)
    ensures
        b == is_upper(c),
{
    'A' <= c && c <= 'Z'
}

pub fn is_alpha_exec(c: char) -> (b: bool)
    ensures
        b == is_alpha(c),
{
    ('A' <= c && c <= 'Z') || ('a' <= c && c <= 'z')
}

pub fn is_alnum_exec(c: char) -> (b: bool)
    ensures
        b == is_alnum(c),
{
    ('A' <= c && c <= 'Z') || ('a' <= c && c <= 'z') || ('0' <= c && c <= '9')
}

pub fn lower_exec(c: char) -> (r: char)
    ensures
        r == lower(c),
{
    if 'A' <= c && c <= 'Z' {
        let b: u8 = (c as u8) + 32;
        b as char
    } else {
        c
    }
}

pub fn utf8_width_exec(c: char) -> (w: usize)
    ensures
        w == utf8_width(c),
{
    if (c as u32) < 0x80 {
        1
    } else if (c as u32) < 0x800 {
        2
    } else if (c as u32) < 0x10000 {
        3
    } else {
        4
    }
}

/// `a + b`, clamped to `usize::MAX`.
pub fn sat_add(a: usize, b: usize) -> (r: usize)
    ensures
        r == sat(a + b),
{
    if a > usize::MAX - b {
        usize::MAX
    } else {
        a + b
    }
}

/// Collects the characters of `s`.
pub fn to_chars(s: &str) -> (v: Vec<char>)
    ensures
        v@ == s@,
{
    let mut v: Vec<char> = Vec::new();
    for c in it: s.chars()
        invariant
            v@ == it.seq().take(it.index() as int),
            it.seq() == s@,
    {
        v.push(c);
    }
    v
}

/// Builds a `String` from characters: `String`'s `FromIterator<char>`.
#[verifier::external_body]
pub(crate) fn chars_to_string(v: &[char]) -> (s: String)
    ensures
        s@ == v@,
{
    v.iter().collect()
}

/// Copy of `s[from..to]`.
pub fn slice_vec(s: &[char], from: usize, to: usize) -> (v: Vec<char>)
    requires
        from <= to <= s.len(),
    ensures
        v@ == s@.subrange(from as int, to as int),
{
    let mut v: Vec<char> = Vec::new();
    let mut i = from;
    while i < to
        invariant
            from <= i <= to <= s.len(),
            v@ == s@.subrange(from as int, i as int),
        decreases to - i,
    {
        v.push(s[i]);
        i += 1;
    }
    v
}

/// Appends `s[from..to]` to `out`.
pub fn push_range(out: &mut Vec<char>, s: &[char], from: usize, to: usize)
    requires
        from <= to <= s.len(),
    ensures
        final(out)@ == old(out)@ + s@.subrange(from as int, to as int),
{
    let mut i = from;
    while i < to
        invariant
            from <= i <= to <= s.len(),
            out@ == old(out)@ + s@.subrange(from as int, i as int),
        decreases to - i,
    {
        out.push(s[i]);
        i += 1;
        assert(s@.subrange(from as int, i as int) == s@.subrange(from as int, i - 1).push(
            s@[i - 1],
        ));
    }
}

/// Appends all of `s` to `out`.
pub fn push_all(out: &mut Vec<char>, s: &[char])
    ensures
        final(out)@ == old(out)@ + s@,
{
    push_range(out, s, 0, s.len());
    assert(s@.subrange(0, s@.len() as int) == s@);
}

/// ASCII-lowercased copy of `s`.
pub fn lower_vec(s: &[char]) -> (v: Vec<char>)
    ensures
        v@ == lower_seq(s@),
{
    let mut v: Vec<char> = Vec::new();
    let mut i: usize = 0;
    while i < s.len()
        invariant
            i <= s.len(),
            v@ == lower_seq(s@.subrange(0, i as int)),
        decreases s.len() - i,
    {
        v.push(lower_exec(s[i]));
        i += 1;
        assert(lower_seq(s@.subrange(0, i as int)) == lower_seq(s@.subrange(0, i - 1)).push(
            lower(s@[i - 1]),
        ));
    }
    assert(s@.subrange(0, s@.len() as int) == s@);
    v
}

pub fn seq_eq(a: &[char], b: &[char]) -> (r: bool)
    ensures
        r == (a@ == b@),
{
    if a.len() != b.len() {
        return false;
    }
    let mut i: usize = 0;
    while i < a.len()
        invariant
            i <= a.len() == b.len(),
            forall|j: int| 0 <= j < i ==> a@[j] == b@[j],
        decreases a.len() - i,
    {
        if a[i] != b[i] {
            return false;
        }
        i += 1;
    }
    assert(a@ =~= b@);
    true
}

/// Whether `a` equals the literal `lit`.
pub fn eq_str(a: &[char], lit: &str) -> (r: bool)
    ensures
        r == (a@ == lit@),
{
    let b = to_chars(lit);
    seq_eq(a, b.as_slice())
}

/// `s[i..]` starts with `p`.
pub fn matches_at_exec(s: &[char], i: usize, p: &[char]) -> (r: bool)
    ensures
        r == matches_at(s@, i as int, p@),
{
    if i > s.len() || p.len() > s.len() - i {
        return false;
    }
    let mut k: usize = 0;
    while k < p.len()
        invariant
            i + p.len() <= s.len(),
            k <= p.len(),
            forall|j: int| 0 <= j < k ==> s@[i + j] == p@[j],
        decreases p.len() - k,
    {
        if s[i + k] != p[k] {
            assert(s@.subrange(i as int, i + p.len())[k as int] != p@[k as int]);
            return false;
        }
        k += 1;
    }
    assert(s@.subrange(i as int, i + p.len()) =~= p@);
    true
}

/// `s[i..]` starts with the literal `lit`.
pub fn at_str(s: &[char], i: usize, lit: &str) -> (r: bool)
    ensures
        r == matches_at(s@, i as int, lit@),
{
    let p = to_chars(lit);
    matches_at_exec(s, i, p.as_slice())
}

/// `s[i..]` starts with `p`, ignoring ASCII case.
pub fn matches_at_ic_exec(s: &[char], i: usize, p: &[char]) -> (r: bool)
    ensures
        r == matches_at_ic(s@, i as int, p@),
{
    if i > s.len() || p.len() > s.len() - i {
        return false;
    }
    let mut k: usize = 0;
    while k < p.len()
        invariant
            i + p.len() <= s.len(),
            k <= p.len(),
            forall|j: int| 0 <= j < k ==> lower(s@[i + j]) == lower(p@[j]),
        decreases p.len() - k,
    {
        if lower_exec(s[i + k]) != lower_exec(p[k]) {
            assert(lower_seq(s@.subrange(i as int, i + p.len()))[k as int] != lower_seq(
                p@,
            )[k as int]);
            return false;
        }
        k += 1;
    }
    assert(lower_seq(s@.subrange(i as int, i + p.len())) =~= lower_seq(p@));
    true
}

/// `a.eq_ignore_ascii_case(b)`.
pub fn eq_ic_exec(a: &[char], b: &[char]) -> (r: bool)
    ensures
        r == eq_ic(a@, b@),
{
    if a.len() != b.len() {
        assert(lower_seq(a@).len() != lower_seq(b@).len());
        return false;
    }
    let r = matches_at_ic_exec(a, 0, b);
    assert(a@.subrange(0, b@.len() as int) == a@);
    r
}

/// `a.eq_ignore_ascii_case(lit)`.
pub fn eq_ic_str(a: &[char], lit: &str) -> (r: bool)
    ensures
        r == eq_ic(a@, lit@),
{
    let b = to_chars(lit);
    eq_ic_exec(a, b.as_slice())
}

/// First index at or after `from` where `p` occurs.
pub fn find_exec(s: &[char], from: usize, p: &[char]) -> (r: Option<usize>)
    ensures
        r matches Some(i) ==> find_from(s@, from as int, p@) == Some(i as int),
        r is None ==> find_from(s@, from as int, p@) is None,
{
    if from > s.len() {
        return None;
    }
    let mut i = from;
    while i <= s.len()
        invariant
            from <= i <= s.len() + 1,
            find_from(s@, from as int, p@) == find_from(s@, i as int, p@),
        decreases s.len() + 1 - i,
    {
        if p.len() > s.len() - i {
            return None;
        }
        if matches_at_exec(s, i, p) {
            return Some(i);
        }
        assert(p@.len() > 0) by {
            if p@.len() == 0 {
                assert(s@.subrange(i as int, i as int) =~= p@);
            }
        }
        i += 1;
    }
    None
}

/// First index at or after `from` where `p` occurs, ignoring ASCII case.
pub fn find_ic_exec(s: &[char], from: usize, p: &[char]) -> (r: Option<usize>)
    ensures
        r matches Some(i) ==> find_from_ic(s@, from as int, p@) == Some(i as int),
        r is None ==> find_from_ic(s@, from as int, p@) is None,
{
    if from > s.len() {
        return None;
    }
    let mut i = from;
    while i <= s.len()
        invariant
            from <= i <= s.len() + 1,
            find_from_ic(s@, from as int, p@) == find_from_ic(s@, i as int, p@),
        decreases s.len() + 1 - i,
    {
        if p.len() > s.len() - i {
            return None;
        }
        if matches_at_ic_exec(s, i, p) {
            return Some(i);
        }
        assert(p@.len() > 0) by {
            if p@.len() == 0 {
                assert(lower_seq(s@.subrange(i as int, i as int)) =~= lower_seq(p@));
            }
        }
        i += 1;
    }
    None
}

pub proof fn lemma_find_from_bounds(s: Seq<char>, from: int, p: Seq<char>)
    ensures
        find_from(s, from, p) matches Some(i) ==> from <= i && i + p.len() <= s.len()
            && matches_at(s, i, p),
    decreases s.len() + 1 - from,
{
    if !(from < 0 || from + p.len() > s.len()) && !matches_at(s, from, p) {
        lemma_find_from_bounds(s, from + 1, p);
    }
}

pub proof fn lemma_find_from_ic_bounds(s: Seq<char>, from: int, p: Seq<char>)
    ensures
        find_from_ic(s, from, p) matches Some(i) ==> from <= i && i + p.len() <= s.len()
            && matches_at_ic(s, i, p),
    decreases s.len() + 1 - from,
{
    if !(from < 0 || from + p.len() > s.len()) && !matches_at_ic(s, from, p) {
        lemma_find_from_ic_bounds(s, from + 1, p);
    }
}

/// Index just past the first `p` at or after `from`, or `s.len()`.
pub fn skip_past_exec(s: &[char], from: usize, p: &[char]) -> (r: usize)
    ensures
        r == skip_past(s@, from as int, p@),
        r <= s.len(),
        from <= s.len() ==> from <= r,
{
    proof {
        lemma_find_from_bounds(s@, from as int, p@);
    }
    let n = s.len();
    match find_exec(s, from, p) {
        Some(i) => {
            assert(i + p@.len() <= n);
            i + p.len()
        },
        None => n,
    }
}

pub fn skip_ws_exec(s: &[char], i: usize) -> (r: usize)
    requires
        i <= s.len(),
    ensures
        r == skip_ws(s@, i as int),
        i <= r <= s.len(),
{
    let mut j = i;
    while j < s.len() && is_ws_exec(s[j])
        invariant
            i <= j <= s.len(),
            skip_ws(s@, j as int) == skip_ws(s@, i as int),
        decreases s.len() - j,
    {
        j += 1;
    }
    j
}

pub fn indent_len_exec(s: &[char], i: usize) -> (r: usize)
    requires
        i <= s.len(),
    ensures
        r == indent_len(s@, i as int),
        i <= r <= s.len(),
{
    let mut j = i;
    while j < s.len() && (s[j] == ' ' || s[j] == '\t')
        invariant
            i <= j <= s.len(),
            indent_len(s@, j as int) == indent_len(s@, i as int),
        decreases s.len() - j,
    {
        j += 1;
    }
    j
}

/// Whether `s[from..to]` is all Unicode whitespace.
pub fn all_unicode_ws_exec(s: &[char], from: usize, to: usize) -> (r: bool)
    requires
        from <= to <= s.len(),
    ensures
        r == all_unicode_ws(s@.subrange(from as int, to as int)),
{
    let mut i = from;
    while i < to
        invariant
            from <= i <= to <= s.len(),
            forall|j: int| from <= j < i ==> is_unicode_ws(s@[j]),
        decreases to - i,
    {
        if !is_unicode_ws_exec(s[i]) {
            assert(!is_unicode_ws(s@.subrange(from as int, to as int)[i - from]));
            return false;
        }
        i += 1;
    }
    assert forall|j: int| 0 <= j < to - from implies is_unicode_ws(
        #[trigger] s@.subrange(from as int, to as int)[j],
    ) by {
        assert(s@.subrange(from as int, to as int)[j] == s@[from + j]);
    }
    true
}

} // verus!
