//! Lexer-level markup scanner.
//!
//! No DOM is built: the scanner only locates start tags and tokenizes their
//! attribute lists. Everything else is copied through unchanged.

use vstd::prelude::*;

use crate::error::{line_col, spec_column, spec_line, FormatError, FormatErrorView};
use crate::attribute::{
    is_component_chars, key_of_chars, normalize_name_chars, spec_is_component, spec_key_of,
    spec_normalize_name, Key, KeyView,
};
use crate::order::{attribute_order, is_attribute_order, key_views, spec_attribute_order};
use crate::profile::{Layout, Profile, SelfClosing};
use crate::stylesheet::{format_embedded, spec_format_embedded, spec_from_lang, StyleLang};
use crate::text::{
    all_unicode_ws, all_unicode_ws_exec, eq_ic, eq_ic_str, eq_str, find_exec, find_from, find_from_ic,
    find_ic_exec,
    lemma_find_from_bounds, lemma_find_from_ic_bounds, at_str, is_alpha_exec, skip_past,
    skip_past_exec, to_chars, indent_len, indent_len_exec, is_alpha, is_ws, is_ws_exec, lower_seq, lower_vec,
    matches_at, matches_at_exec, matches_at_ic, push_all, push_range, seq_eq, skip_ws, skip_ws_exec,
    slice_vec,
};

verus! {

/// Where one attribute of a start tag lies in the source: its leading
/// separator `src[sep_start..name_start]`, its name
/// `src[name_start..name_end]`, everything after the name
/// `src[name_end..end]` (`="value"`, spaces around `=` included), and the
/// value without quotes.
#[derive(Clone, Copy, Debug)]
pub struct AttrSpan {
    pub sep_start: usize,
    pub name_start: usize,
    pub name_end: usize,
    pub end: usize,
    pub value: Option<(usize, usize)>,
}

/// A tokenized start tag `src[start..end]`: its name `src[start + 1..name_end]`,
/// its attributes, the whitespace `src[trailing_start..close]` before the
/// closing bracket at `close`, and whether it ends with `/>`.
#[derive(Clone, Debug)]
pub struct StartTag {
    pub start: usize,
    pub name_end: usize,
    pub attrs: Vec<AttrSpan>,
    pub trailing_start: usize,
    pub close: usize,
    pub end: usize,
    pub self_closing: bool,
}

/// The mathematical content of a [`StartTag`].
pub struct TagSpec {
    pub start: int,
    pub name_end: int,
    pub attrs: Seq<AttrSpan>,
    pub trailing_start: int,
    pub close: int,
    pub end: int,
    pub self_closing: bool,
}

impl View for StartTag {
    type V = TagSpec;

    open spec fn view(&self) -> TagSpec {
        TagSpec {
            start: self.start as int,
            name_end: self.name_end as int,
            attrs: self.attrs@,
            trailing_start: self.trailing_start as int,
            close: self.close as int,
            end: self.end as int,
            self_closing: self.self_closing,
        }
    }
}

/// First index at or after `i` holding whitespace, `/` or `>` (or the end).
pub open spec fn name_end_from(src: Seq<char>, i: int) -> int
    decreases src.len() - i,
{
    if 0 <= i < src.len() && !(is_ws(src[i]) || src[i] == '/' || src[i] == '>') {
        name_end_from(src, i + 1)
    } else {
        i
    }
}

/// A `/` that is not the start of `/>`: it separates attributes like whitespace.
pub open spec fn stray_slash(src: Seq<char>, i: int) -> bool {
    src[i] == '/' && !(i + 1 < src.len() && src[i + 1] == '>')
}

/// First index at or after `i` that is neither whitespace nor a stray slash.
pub open spec fn sep_end(src: Seq<char>, i: int) -> int
    decreases src.len() - i,
{
    if 0 <= i < src.len() && (is_ws(src[i]) || stray_slash(src, i)) {
        sep_end(src, i + 1)
    } else {
        i
    }
}

/// End of an attribute name that starts at `start`, scanning from `i` at
/// bracket depth `depth`. Inside `[` … `]` (Vue dynamic arguments) anything
/// but `>` belongs to the name; outside, `/`, whitespace and a `=` that is not
/// the first character end it.
pub open spec fn attr_name_end(src: Seq<char>, start: int, i: int, depth: nat) -> int
    decreases src.len() - i,
{
    if i < 0 || i >= src.len() {
        i
    } else {
        let c = src[i];
        if c == '[' {
            attr_name_end(src, start, i + 1, depth + 1)
        } else if c == ']' {
            attr_name_end(
                src,
                start,
                i + 1,
                if depth > 0 {
                    (depth - 1) as nat
                } else {
                    0
                },
            )
        } else if c == '>' {
            i
        } else if depth > 0 {
            attr_name_end(src, start, i + 1, depth)
        } else if c == '/' || (c == '=' && i > start) || is_ws(c) {
            i
        } else {
            attr_name_end(src, start, i + 1, depth)
        }
    }
}

/// First index at or after `i` holding `q`.
pub open spec fn char_from(src: Seq<char>, i: int, q: char) -> Option<int>
    decreases src.len() - i,
{
    if i < 0 || i >= src.len() {
        None
    } else if src[i] == q {
        Some(i)
    } else {
        char_from(src, i + 1, q)
    }
}

/// End of an unquoted attribute value: the first whitespace or `>`.
pub open spec fn unquoted_end(src: Seq<char>, i: int) -> int
    decreases src.len() - i,
{
    if 0 <= i < src.len() && !is_ws(src[i]) && src[i] != '>' {
        unquoted_end(src, i + 1)
    } else {
        i
    }
}

/// The error for an unterminated start tag beginning at `start`.
pub open spec fn unterminated_tag(src: Seq<char>, start: int) -> FormatErrorView {
    FormatErrorView::UnterminatedTag { line: spec_line(src, start), column: spec_column(src, start) }
}

/// The error for an unterminated quoted value of the attribute named at `name_start`.
pub open spec fn unterminated_value(src: Seq<char>, name_start: int) -> FormatErrorView {
    FormatErrorView::UnterminatedAttributeValue {
        line: spec_line(src, name_start),
        column: spec_column(src, name_start),
    }
}

/// What an attribute's `= value` part is, read from `after_name` on: the end
/// of the attribute and its value; or an error.
pub open spec fn attr_value(src: Seq<char>, start: int, name_start: int, name_end: int) -> Result<
    (int, Option<(usize, usize)>),
    FormatErrorView,
> {
    let after_name = skip_ws(src, name_end);
    if after_name < src.len() && src[after_name] == '=' {
        let value_start = skip_ws(src, after_name + 1);
        if value_start >= src.len() {
            Err(unterminated_tag(src, start))
        } else if src[value_start] == '"' || src[value_start] == '\'' {
            match char_from(src, value_start + 1, src[value_start]) {
                None => Err(unterminated_value(src, name_start)),
                Some(close) => Ok((close + 1, Some(((value_start + 1) as usize, close as usize)))),
            }
        } else {
            let end = unquoted_end(src, value_start);
            Ok((end, Some((value_start as usize, end as usize))))
        }
    } else {
        Ok((name_end, None))
    }
}

/// Tokenizes the attributes of a start tag from `i` on, after `acc`: the
/// attributes, where the trailing whitespace starts, where the closing
/// bracket is, and whether it is `/>`.
#[verifier::opaque]
pub open spec fn parse_attrs(src: Seq<char>, start: int, i: int, acc: Seq<AttrSpan>) -> Result<
    (Seq<AttrSpan>, int, int, bool),
    FormatErrorView,
>
    decreases src.len() - i,
{
    let j = sep_end(src, i);
    if i < 0 || j >= src.len() {
        Err(unterminated_tag(src, start))
    } else if src[j] == '>' {
        Ok((acc, i, j, false))
    } else if src[j] == '/' {
        Ok((acc, i, j, true))
    } else {
        let name_end = attr_name_end(src, j, j, 0);
        match attr_value(src, start, j, name_end) {
            Err(e) => Err(e),
            Ok((end, value)) => {
                let span = AttrSpan {
                    sep_start: i as usize,
                    name_start: j as usize,
                    name_end: name_end as usize,
                    end: end as usize,
                    value,
                };
                if end > i && end <= src.len() {
                    parse_attrs(src, start, end, acc.push(span))
                } else {
                    Err(unterminated_tag(src, start))
                }
            },
        }
    }
}

/// The start tag at `start` (where `src[start]` is `<` followed by a letter).
pub open spec fn spec_parse_start_tag(src: Seq<char>, start: int) -> Result<TagSpec, FormatErrorView> {
    let name_end = name_end_from(src, start + 1);
    match parse_attrs(src, start, name_end, seq![]) {
        Err(e) => Err(e),
        Ok((attrs, trailing_start, close, self_closing)) => Ok(
            TagSpec {
                start,
                name_end,
                attrs,
                trailing_start,
                close,
                end: if self_closing {
                    close + 2
                } else {
                    close + 1
                },
                self_closing,
            },
        ),
    }
}

/// Every attribute span lies inside the tag, in order.
#[verifier::opaque]
pub open spec fn spans_ok(src: Seq<char>, name_end: int, attrs: Seq<AttrSpan>, upto: int) -> bool {
    forall|k: int|
        0 <= k < attrs.len() ==> {
            let a = #[trigger] attrs[k];
            &&& name_end <= a.sep_start <= a.name_start < a.name_end <= a.end <= upto <= src.len()
            &&& (k > 0 ==> attrs[k - 1].end == a.sep_start)
            &&& (k == 0 ==> a.sep_start == name_end)
            &&& (a.value matches Some(v) ==> a.name_end <= v.0 <= v.1 <= a.end)
        }
}

/// A well-formed tag: spans in order, `src[close]` is `>` or the `/` of `/>`.
pub open spec fn tag_ok(src: Seq<char>, t: TagSpec) -> bool {
    &&& 0 <= t.start < t.name_end <= t.trailing_start <= t.close < t.end <= src.len()
    &&& spans_ok(src, t.name_end, t.attrs, t.trailing_start)
    &&& (t.attrs.len() == 0 ==> t.trailing_start == t.name_end)
    &&& (t.attrs.len() > 0 ==> t.trailing_start == t.attrs.last().end)
    &&& (t.self_closing ==> src[t.close] == '/' && t.end == t.close + 2)
    &&& (!t.self_closing ==> src[t.close] == '>' && t.end == t.close + 1)
}

proof fn lemma_name_end_from(src: Seq<char>, i: int)
    requires
        0 <= i <= src.len(),
    ensures
        i <= name_end_from(src, i) <= src.len(),
    decreases src.len() - i,
{
    if i < src.len() && !(is_ws(src[i]) || src[i] == '/' || src[i] == '>') {
        lemma_name_end_from(src, i + 1);
    }
}

proof fn lemma_spans_push(src: Seq<char>, name_end: int, attrs: Seq<AttrSpan>, span: AttrSpan, i: int)
    requires
        spans_ok(src, name_end, attrs, i),
        attrs.len() == 0 ==> i == name_end,
        attrs.len() > 0 ==> i == attrs.last().end,
        span.sep_start == i,
        i <= span.name_start < span.name_end <= span.end <= src.len(),
        span.value matches Some(v) ==> span.name_end <= v.0 <= v.1 <= span.end,
    ensures
        spans_ok(src, name_end, attrs.push(span), span.end as int),
{
    reveal(spans_ok);
    let attrs2 = attrs.push(span);
    assert forall|k: int| 0 <= k < attrs2.len() implies {
        let a = #[trigger] attrs2[k];
        &&& name_end <= a.sep_start <= a.name_start < a.name_end <= a.end <= span.end <= src.len()
        &&& (k > 0 ==> attrs2[k - 1].end == a.sep_start)
        &&& (k == 0 ==> a.sep_start == name_end)
        &&& (a.value matches Some(v) ==> a.name_end <= v.0 <= v.1 <= a.end)
    } by {
        if k < attrs.len() {
            assert(attrs2[k] == attrs[k]);
        }
    }
}

/// One step of [`parse_attrs`] over an attribute.
proof fn lemma_parse_attrs_step(src: Seq<char>, start: int, i: int, acc: Seq<AttrSpan>, j: int)
    requires
        0 <= i <= j < src.len(),
        j == sep_end(src, i),
        src[j] != '>' && src[j] != '/',
        attr_value(src, start, j, attr_name_end(src, j, j, 0)) matches Ok((end, value)) && end
            > i && end <= src.len(),
    ensures
        ({
            let name_end = attr_name_end(src, j, j, 0);
            let (end, value) = attr_value(src, start, j, name_end)->Ok_0;
            parse_attrs(src, start, i, acc) == parse_attrs(
                src,
                start,
                end,
                acc.push(
                    AttrSpan {
                        sep_start: i as usize,
                        name_start: j as usize,
                        name_end: name_end as usize,
                        end: end as usize,
                        value,
                    },
                ),
            )
        }),
{
    reveal(parse_attrs);
}

/// [`parse_attrs`] where the attribute list ends or fails.
proof fn lemma_parse_attrs_stop(src: Seq<char>, start: int, i: int, acc: Seq<AttrSpan>, j: int)
    requires
        0 <= i <= j <= src.len(),
        j == sep_end(src, i),
    ensures
        j >= src.len() ==> parse_attrs(src, start, i, acc) == Err::<
            (Seq<AttrSpan>, int, int, bool),
            FormatErrorView,
        >(unterminated_tag(src, start)),
        j < src.len() && src[j] == '>' ==> parse_attrs(src, start, i, acc) == Ok::<
            (Seq<AttrSpan>, int, int, bool),
            FormatErrorView,
        >((acc, i, j, false)),
        j < src.len() && src[j] == '/' ==> parse_attrs(src, start, i, acc) == Ok::<
            (Seq<AttrSpan>, int, int, bool),
            FormatErrorView,
        >((acc, i, j, true)),
        j < src.len() && src[j] != '>' && src[j] != '/' && attr_value(
            src,
            start,
            j,
            attr_name_end(src, j, j, 0),
        ) is Err ==> parse_attrs(src, start, i, acc) == Err::<
            (Seq<AttrSpan>, int, int, bool),
            FormatErrorView,
        >(attr_value(src, start, j, attr_name_end(src, j, j, 0))->Err_0),
{
    reveal(parse_attrs);
}

proof fn lemma_sep_end(src: Seq<char>, i: int)
    requires
        0 <= i <= src.len(),
    ensures
        i <= sep_end(src, i) <= src.len(),
        sep_end(src, i) < src.len() ==> !(is_ws(src[sep_end(src, i)]) || stray_slash(
            src,
            sep_end(src, i),
        )),
    decreases src.len() - i,
{
    if i < src.len() && (is_ws(src[i]) || stray_slash(src, i)) {
        lemma_sep_end(src, i + 1);
    }
}

fn name_end_exec(src: &[char], i: usize) -> (r: usize)
    requires
        i <= src.len(),
    ensures
        r == name_end_from(src@, i as int),
        i <= r <= src.len(),
{
    let mut j = i;
    while j < src.len() && !(is_ws_exec(src[j]) || src[j] == '/' || src[j] == '>')
        invariant
            i <= j <= src.len(),
            name_end_from(src@, j as int) == name_end_from(src@, i as int),
        decreases src.len() - j,
    {
        j += 1;
    }
    j
}

fn sep_end_exec(src: &[char], i: usize) -> (r: usize)
    requires
        i <= src.len(),
    ensures
        r == sep_end(src@, i as int),
        i <= r <= src.len(),
{
    let mut j = i;
    while j < src.len() && (is_ws_exec(src[j]) || (src[j] == '/' && !(j + 1 < src.len() && src[j
        + 1] == '>')))
        invariant
            i <= j <= src.len(),
            sep_end(src@, j as int) == sep_end(src@, i as int),
        decreases src.len() - j,
    {
        j += 1;
    }
    j
}

proof fn lemma_attr_name_end(src: Seq<char>, start: int, i: int, depth: nat)
    requires
        0 <= i <= src.len(),
    ensures
        i <= attr_name_end(src, start, i, depth) <= src.len(),
    decreases src.len() - i,
{
    if i < src.len() {
        let c = src[i];
        if c == '[' {
            lemma_attr_name_end(src, start, i + 1, depth + 1);
        } else if c == ']' {
            lemma_attr_name_end(
                src,
                start,
                i + 1,
                if depth > 0 {
                    (depth - 1) as nat
                } else {
                    0
                },
            );
        } else if c == '>' {
        } else if depth > 0 {
            lemma_attr_name_end(src, start, i + 1, depth);
        } else if c == '/' || (c == '=' && i > start) || is_ws(c) {
        } else {
            lemma_attr_name_end(src, start, i + 1, depth);
        }
    }
}

fn attr_name_end_exec(src: &[char], start: usize) -> (r: usize)
    requires
        start <= src.len(),
    ensures
        r == attr_name_end(src@, start as int, start as int, 0),
        start <= r <= src.len(),
{
    let mut depth: usize = 0;
    let mut i = start;
    proof {
        lemma_attr_name_end(src@, start as int, start as int, 0);
    }
    while i < src.len()
        invariant
            start <= i <= src.len(),
            depth <= i,
            attr_name_end(src@, start as int, i as int, depth as nat) == attr_name_end(
                src@,
                start as int,
                start as int,
                0,
            ),
        decreases src.len() - i,
    {
        let c = src[i];
        if c == '[' {
            depth += 1;
        } else if c == ']' {
            if depth > 0 {
                depth -= 1;
            }
        } else if c == '>' {
            return i;
        } else if depth > 0 {
        } else if c == '/' || (c == '=' && i > start) || is_ws_exec(c) {
            return i;
        }
        i += 1;
    }
    i
}

fn char_from_exec(src: &[char], i: usize, q: char) -> (r: Option<usize>)
    requires
        i <= src.len(),
    ensures
        (match r {
            Some(k) => Some(k as int),
            None => None,
        }) == char_from(src@, i as int, q),
        r matches Some(k) ==> i <= k < src.len() && src@[k as int] == q,
{
    let mut j = i;
    while j < src.len()
        invariant
            i <= j <= src.len(),
            char_from(src@, j as int, q) == char_from(src@, i as int, q),
        decreases src.len() - j,
    {
        if src[j] == q {
            return Some(j);
        }
        j += 1;
    }
    None
}

fn unquoted_end_exec(src: &[char], i: usize) -> (r: usize)
    requires
        i <= src.len(),
    ensures
        r == unquoted_end(src@, i as int),
        i <= r <= src.len(),
{
    let mut j = i;
    while j < src.len() && !is_ws_exec(src[j]) && src[j] != '>'
        invariant
            i <= j <= src.len(),
            unquoted_end(src@, j as int) == unquoted_end(src@, i as int),
        decreases src.len() - j,
    {
        j += 1;
    }
    j
}

fn unterminated_tag_error(src: &[char], start: usize) -> (e: FormatError)
    ensures
        e@ == unterminated_tag(src@, start as int),
{
    let (line, column) = line_col(src, start);
    FormatError::UnterminatedTag { line, column }
}

/// Reads the optional `= value` after the attribute name `src[name_start..name_end]`.
fn attr_value_exec(src: &[char], start: usize, name_start: usize, name_end: usize) -> (r: Result<
    (usize, Option<(usize, usize)>),
    FormatError,
>)
    requires
        start <= name_start < name_end <= src.len(),
    ensures
        (match r {
            Ok((e, v)) => Ok((e as int, v)),
            Err(e) => Err(e@),
        }) == attr_value(src@, start as int, name_start as int, name_end as int),
        r matches Ok((e, v)) ==> name_end <= e <= src.len() && (v matches Some(v) ==> name_end
            <= v.0 <= v.1 <= e),
{
    let after_name = skip_ws_exec(src, name_end);
    if after_name < src.len() && src[after_name] == '=' {
        let value_start = skip_ws_exec(src, after_name + 1);
        if value_start >= src.len() {
            return Err(unterminated_tag_error(src, start));
        }
        let q = src[value_start];
        if q == '"' || q == '\'' {
            match char_from_exec(src, value_start + 1, q) {
                None => {
                    let (line, column) = line_col(src, name_start);
                    Err(FormatError::UnterminatedAttributeValue { line, column })
                },
                Some(close) => Ok((close + 1, Some((value_start + 1, close)))),
            }
        } else {
            let e = unquoted_end_exec(src, value_start);
            Ok((e, Some((value_start, e))))
        }
    } else {
        Ok((name_end, None))
    }
}

/// Tokenizes the start tag at `start`.
pub fn parse_start_tag(src: &[char], start: usize) -> (r: Result<StartTag, FormatError>)
    requires
        start + 1 < src.len(),
        is_alpha(src@[start + 1]),
    ensures
        (match r {
            Ok(t) => Ok(t@),
            Err(e) => Err(e@),
        }) == spec_parse_start_tag(src@, start as int),
        r matches Ok(t) ==> tag_ok(src@, t@) && t.start == start,
{
    let name_end = name_end_exec(src, start + 1);
    let mut attrs: Vec<AttrSpan> = Vec::new();
    let mut i = name_end;
    proof {
        reveal(spans_ok);
    }
    proof {
        lemma_name_end_from(src@, start + 2);
    }
    assert(name_end > start + 1);
    loop
        invariant
            start + 1 < name_end <= i <= src.len(),
            name_end == name_end_from(src@, start + 1),
            parse_attrs(src@, start as int, i as int, attrs@) == parse_attrs(
                src@,
                start as int,
                name_end as int,
                seq![],
            ),
            spans_ok(src@, name_end as int, attrs@, i as int),
            attrs@.len() == 0 ==> i == name_end,
            attrs@.len() > 0 ==> i == attrs@.last().end,
        decreases src.len() - i,
    {
        let j = sep_end_exec(src, i);
        proof {
            lemma_parse_attrs_stop(src@, start as int, i as int, attrs@, j as int);
        }
        if j >= src.len() {
            return Err(unterminated_tag_error(src, start));
        }
        if src[j] == '>' {
            return Ok(
                StartTag {
                    start,
                    name_end,
                    attrs,
                    trailing_start: i,
                    close: j,
                    end: j + 1,
                    self_closing: false,
                },
            );
        }
        if src[j] == '/' {
            proof {
                lemma_sep_end(src@, i as int);
            }
            assert(j + 1 < src.len() && src@[j + 1] == '>');
            return Ok(
                StartTag {
                    start,
                    name_end,
                    attrs,
                    trailing_start: i,
                    close: j,
                    end: j + 2,
                    self_closing: true,
                },
            );
        }
        let attr_end = attr_name_end_exec(src, j);
        proof {
            lemma_sep_end(src@, i as int);
            lemma_attr_name_end(src@, j as int, j + 1, 0);
            lemma_attr_name_end(src@, j as int, j + 1, 1);
        }
        assert(attr_end > j);
        let (end, value) = match attr_value_exec(src, start, j, attr_end) {
            Ok(v) => v,
            Err(e) => {
                return Err(e);
            },
        };
        assert(end > i);
        let span = AttrSpan { sep_start: i, name_start: j, name_end: attr_end, end, value };
        let ghost old_attrs = attrs@;
        attrs.push(span);
        proof {
            lemma_spans_push(src@, name_end as int, old_attrs, span, i as int);
            lemma_parse_attrs_step(src@, start as int, i as int, old_attrs, j as int);
        }
        i = end;
    }
}


/// How a start tag is closed after rewriting.
#[derive(Clone, Copy, Debug, PartialEq, Eq, Structural)]
pub enum Closing {
    /// As in the source: its trailing whitespace, then `>` or `/>`.
    Keep,
    /// Written ` />`.
    SelfClose,
    /// Written `>` (a void element that lost its `/>`).
    OpenOnly,
    /// Written `></name>` (an element that lost its `/>`).
    Expand,
}

/// The tag name `src[start + 1..name_end]`.
pub open spec fn tag_name(src: Seq<char>, t: TagSpec) -> Seq<char> {
    src.subrange(t.start + 1, t.name_end)
}

/// Index of the last `\n` among `s[..k]`.
pub open spec fn last_newline(s: Seq<char>, k: int) -> Option<int>
    decreases k,
{
    if k <= 0 {
        None
    } else if s[k - 1] == '\n' {
        Some(k - 1)
    } else {
        last_newline(s, k - 1)
    }
}

/// Leading spaces and tabs of the line containing `offset`.
pub open spec fn spec_line_indent(src: Seq<char>, offset: int) -> Seq<char> {
    let start = match last_newline(src, offset) {
        Some(i) => i + 1,
        None => 0,
    };
    src.subrange(start, indent_len(src, start))
}

/// The line break and indentation that end a separator holding a newline:
/// from its last `\n` (or the `\r` before it) on.
pub open spec fn sep_indent(sep: Seq<char>) -> Option<Seq<char>> {
    match last_newline(sep, sep.len() as int) {
        None => None,
        Some(nl) => Some(
            sep.skip(
                if nl > 0 && sep[nl - 1] == '\r' {
                    nl - 1
                } else {
                    nl
                },
            ),
        ),
    }
}

/// The whitespace before attribute `a`.
pub open spec fn attr_sep(src: Seq<char>, a: AttrSpan) -> Seq<char> {
    src.subrange(a.sep_start as int, a.name_start as int)
}

/// Everything after the name of attribute `a`.
pub open spec fn attr_rest(src: Seq<char>, a: AttrSpan) -> Seq<char> {
    src.subrange(a.name_end as int, a.end as int)
}

/// The indentation of the first separator (from `k` on) that holds a newline.
pub open spec fn first_indent(src: Seq<char>, attrs: Seq<AttrSpan>, k: int) -> Option<Seq<char>>
    decreases attrs.len() - k,
{
    if k < 0 || k >= attrs.len() {
        None
    } else {
        match sep_indent(attr_sep(src, attrs[k])) {
            Some(ind) => Some(ind),
            None => first_indent(src, attrs, k + 1),
        }
    }
}

/// The separators written between attributes: the source separators, or,
/// when the profile puts one attribute per line and some separator breaks
/// the line, that line break and indentation everywhere.
pub open spec fn separators(src: Seq<char>, t: TagSpec, profile: Profile) -> Seq<Seq<char>> {
    let indent = if profile.spec_layout().one_attribute_per_line {
        first_indent(src, t.attrs, 0)
    } else {
        None
    };
    match indent {
        Some(ind) => Seq::new(t.attrs.len(), |k: int| ind),
        None => Seq::new(t.attrs.len(), |k: int| attr_sep(src, t.attrs[k])),
    }
}

/// The normalized names of the attributes, in source order.
pub open spec fn attr_names(src: Seq<char>, t: TagSpec, profile: Profile) -> Seq<Seq<char>> {
    Seq::new(
        t.attrs.len(),
        |k: int|
            spec_normalize_name(
                src.subrange(t.attrs[k].name_start as int, t.attrs[k].name_end as int),
                spec_is_component(tag_name(src, t)),
                profile.spec_normalize(),
            ),
    )
}

/// The classification keys of the attributes, in source order.
pub open spec fn attr_keys(src: Seq<char>, t: TagSpec, profile: Profile) -> Seq<KeyView> {
    attr_names(src, t, profile).map_values(|n: Seq<char>| spec_key_of(n))
}

/// The first `k` attributes in output order, each after the `k`-th separator.
pub open spec fn join_attrs(
    src: Seq<char>,
    t: TagSpec,
    seps: Seq<Seq<char>>,
    names: Seq<Seq<char>>,
    order: Seq<usize>,
    k: int,
) -> Seq<char>
    decreases k,
{
    if k <= 0 {
        seq![]
    } else {
        join_attrs(src, t, seps, names, order, k - 1) + seps[k - 1] + names[order[k - 1] as int]
            + attr_rest(src, t.attrs[order[k - 1] as int])
    }
}

/// `s` holds `\r\n`.
pub open spec fn has_crlf(s: Seq<char>) -> bool {
    exists|i: int| 0 <= i && i + 1 < s.len() && s[i] == '\r' && #[trigger] s[i + 1] == '\n'
}

/// `<name` followed by the attributes in their new order and with their new names.
#[verifier::opaque]
pub open spec fn tag_head(src: Seq<char>, t: TagSpec, profile: Profile) -> Seq<char> {
    seq!['<'] + tag_name(src, t) + join_attrs(
        src,
        t,
        separators(src, t, profile),
        attr_names(src, t, profile),
        spec_attribute_order(attr_keys(src, t, profile), profile),
        t.attrs.len() as int,
    )
}

/// The closing bracket for `closing`.
pub open spec fn close_text(src: Seq<char>, t: TagSpec, closing: Closing) -> Seq<char> {
    match closing {
        Closing::Keep => if t.self_closing {
            seq!['/', '>']
        } else {
            seq!['>']
        },
        Closing::SelfClose => seq!['/', '>'],
        Closing::OpenOnly => seq!['>'],
        Closing::Expand => seq!['>', '<', '/'] + tag_name(src, t) + seq!['>'],
    }
}

/// The whitespace before the closing bracket on a single-line tag.
pub open spec fn trailing_text(src: Seq<char>, t: TagSpec, closing: Closing) -> Seq<char> {
    match closing {
        Closing::Keep => src.subrange(t.trailing_start, t.close),
        Closing::SelfClose => seq![' '],
        _ => seq![],
    }
}

/// The rewritten start tag. A multiline tag gets its closing bracket on its
/// own line, indented like the line the tag starts on, when the profile asks.
pub open spec fn spec_render(src: Seq<char>, t: TagSpec, profile: Profile, closing: Closing) -> Seq<char> {
    let head = tag_head(src, t, profile);
    if profile.spec_layout().closing_bracket_newline && head.contains('\n') {
        head + (if has_crlf(head) {
            seq!['\r', '\n']
        } else {
            seq!['\n']
        }) + spec_line_indent(src, t.start) + close_text(src, t, closing)
    } else {
        head + trailing_text(src, t, closing) + close_text(src, t, closing)
    }
}


fn last_newline_exec(s: &[char], k: usize) -> (r: Option<usize>)
    requires
        k <= s.len(),
    ensures
        (match r {
            Some(i) => Some(i as int),
            None => None,
        }) == last_newline(s@, k as int),
        r matches Some(i) ==> i < k,
{
    let mut j = k;
    while j > 0
        invariant
            j <= k <= s.len(),
            last_newline(s@, j as int) == last_newline(s@, k as int),
        decreases j,
    {
        if s[j - 1] == '\n' {
            return Some(j - 1);
        }
        j -= 1;
    }
    None
}

/// Leading spaces and tabs of the line containing `offset`.
pub fn line_indent(src: &[char], offset: usize) -> (r: Vec<char>)
    requires
        offset <= src.len(),
    ensures
        r@ == spec_line_indent(src@, offset as int),
{
    let start = match last_newline_exec(src, offset) {
        Some(i) => i + 1,
        None => 0,
    };
    let end = indent_len_exec(src, start);
    slice_vec(src, start, end)
}

fn sep_indent_exec(src: &[char], from: usize, to: usize) -> (r: Option<Vec<char>>)
    requires
        from <= to <= src.len(),
    ensures
        (match r {
            Some(v) => Some(v@),
            None => None,
        }) == sep_indent(src@.subrange(from as int, to as int)),
{
    let sep = slice_vec(src, from, to);
    match last_newline_exec(sep.as_slice(), sep.len()) {
        None => None,
        Some(nl) => {
            let lb = if nl > 0 && sep[nl - 1] == '\r' {
                nl - 1
            } else {
                nl
            };
            let v = slice_vec(sep.as_slice(), lb, sep.len());
            assert(v@ == sep@.skip(lb as int));
            Some(v)
        },
    }
}

fn first_indent_exec(src: &[char], attrs: &[AttrSpan]) -> (r: Option<Vec<char>>)
    requires
        forall|k: int|
            0 <= k < attrs.len() ==> (#[trigger] attrs@[k]).sep_start <= attrs@[k].name_start
                <= src.len(),
    ensures
        (match r {
            Some(v) => Some(v@),
            None => None,
        }) == first_indent(src@, attrs@, 0),
{
    let mut k: usize = 0;
    while k < attrs.len()
        invariant
            k <= attrs.len(),
            forall|q: int|
                0 <= q < attrs.len() ==> (#[trigger] attrs@[q]).sep_start <= attrs@[q].name_start
                    <= src.len(),
            first_indent(src@, attrs@, k as int) == first_indent(src@, attrs@, 0),
        decreases attrs.len() - k,
    {
        let a = attrs[k];
        match sep_indent_exec(src, a.sep_start, a.name_start) {
            Some(v) => {
                return Some(v);
            },
            None => {},
        }
        k += 1;
    }
    None
}

fn contains_char(s: &[char], c: char) -> (r: bool)
    ensures
        r == s@.contains(c),
{
    let mut i: usize = 0;
    while i < s.len()
        invariant
            i <= s.len(),
            forall|j: int| 0 <= j < i ==> s@[j] != c,
        decreases s.len() - i,
    {
        if s[i] == c {
            assert(s@[i as int] == c);
            return true;
        }
        i += 1;
    }
    false
}

fn has_crlf_exec(s: &[char]) -> (r: bool)
    ensures
        r == has_crlf(s@),
{
    let mut i: usize = 0;
    while i < s.len()
        invariant
            i <= s.len(),
            forall|j: int| 0 <= j < i && j + 1 < s.len() ==> !(s@[j] == '\r' && #[trigger] s@[j + 1] == '\n'),
        decreases s.len() - i,
    {
        if i + 1 < s.len() && s[i] == '\r' && s[i + 1] == '\n' {
            return true;
        }
        i += 1;
    }
    false
}

/// Facts about the attribute spans of a well-formed tag.
proof fn lemma_tag_spans(src: Seq<char>, t: TagSpec)
    requires
        tag_ok(src, t),
    ensures
        forall|k: int|
            0 <= k < t.attrs.len() ==> {
                let a = #[trigger] t.attrs[k];
                &&& a.sep_start <= a.name_start < a.name_end <= a.end <= src.len()
            },
{
    reveal(spans_ok);
}

/// The normalized names and keys of a tag's attributes, in source order.
fn names_and_keys(src: &[char], tag: &StartTag, profile: &Profile) -> (r: (Vec<Vec<char>>, Vec<Key>))
    requires
        tag_ok(src@, tag@),
    ensures
        r.0@.len() == tag@.attrs.len(),
        forall|q: int| 0 <= q < r.0@.len() ==> (#[trigger] r.0@[q])@ == attr_names(src@, tag@, *profile)[q],
        key_views(r.1@) == attr_keys(src@, tag@, *profile),
{
    let ghost t = tag@;
    proof {
        lemma_tag_spans(src@, t);
    }
    let name = slice_vec(src, tag.start + 1, tag.name_end);
    let component = is_component_chars(name.as_slice());
    let n = tag.attrs.len();
    let mut names: Vec<Vec<char>> = Vec::new();
    let mut keys: Vec<Key> = Vec::new();
    let ghost spec_names = attr_names(src@, t, *profile);
    let mut k: usize = 0;
    while k < n
        invariant
            k <= n == t.attrs.len(),
            t == tag@,
            component == spec_is_component(tag_name(src@, t)),
            spec_names == attr_names(src@, t, *profile),
            forall|q: int|
                0 <= q < t.attrs.len() ==> {
                    let a = #[trigger] t.attrs[q];
                    &&& a.sep_start <= a.name_start < a.name_end <= a.end <= src.len()
                },
            names@.len() == k,
            keys@.len() == k,
            forall|q: int| 0 <= q < k ==> (#[trigger] names@[q])@ == spec_names[q],
            forall|q: int| 0 <= q < k ==> (#[trigger] keys@[q])@ == spec_key_of(spec_names[q]),
        decreases n - k,
    {
        let a = tag.attrs[k];
        let raw = slice_vec(src, a.name_start, a.name_end);
        let nm = normalize_name_chars(raw.as_slice(), component, &profile.normalize);
        keys.push(key_of_chars(nm.as_slice()));
        names.push(nm);
        k += 1;
    }
    proof {
        assert(key_views(keys@) =~= attr_keys(src@, t, *profile));
    }
    (names, keys)
}

/// `<name` followed by the attributes in their new order.
fn head_exec(src: &[char], tag: &StartTag, profile: &Profile) -> (r: Vec<char>)
    requires
        tag_ok(src@, tag@),
    ensures
        r@ == tag_head(src@, tag@, *profile),
{
    let ghost t = tag@;
    proof {
        lemma_tag_spans(src@, t);
    }
    let name = slice_vec(src, tag.start + 1, tag.name_end);
    let (names, keys) = names_and_keys(src, tag, profile);
    let ghost spec_names = attr_names(src@, t, *profile);
    let order = attribute_order(keys.as_slice(), profile);
    let indent: Option<Vec<char>> = if profile.layout.one_attribute_per_line {
        first_indent_exec(src, tag.attrs.as_slice())
    } else {
        None
    };
    let ghost seps = separators(src@, t, *profile);
    let n = tag.attrs.len();
    let mut out: Vec<char> = vec!['<'];
    push_all(&mut out, name.as_slice());
    let mut k: usize = 0;
    while k < n
        invariant
            k <= n == t.attrs.len(),
            t == tag@,
            name@ == tag_name(src@, t),
            forall|q: int|
                0 <= q < t.attrs.len() ==> {
                    let a = #[trigger] t.attrs[q];
                    &&& a.sep_start <= a.name_start < a.name_end <= a.end <= src.len()
                },
            names@.len() == n,
            forall|q: int| 0 <= q < n ==> (#[trigger] names@[q])@ == spec_names[q],
            spec_names == attr_names(src@, t, *profile),
            is_attribute_order(attr_keys(src@, t, *profile), *profile, order@),
            seps == separators(src@, t, *profile),
            (match indent {
                Some(v) => Some(v@),
                None => None,
            }) == (if profile.spec_layout().one_attribute_per_line {
                first_indent(src@, t.attrs, 0)
            } else {
                None
            }),
            out@ == seq!['<'] + name@ + join_attrs(src@, t, seps, spec_names, order@, k as int),
        decreases n - k,
    {
        let ghost before = out@;
        let a = tag.attrs[k];
        match &indent {
            Some(v) => push_all(&mut out, v.as_slice()),
            None => push_range(&mut out, src, a.sep_start, a.name_start),
        }
        let o = order[k];
        assert(order@[k as int] < n);
        push_all(&mut out, names[o].as_slice());
        let b = tag.attrs[o];
        push_range(&mut out, src, b.name_end, b.end);
        proof {
            assert(out@ == before + seps[k as int] + spec_names[o as int] + attr_rest(src@, t.attrs[o as int]));
        }
        k += 1;
    }
    proof {
        reveal(tag_head);
    }
    out
}

/// The rewritten start tag.
pub fn render(src: &[char], tag: &StartTag, profile: &Profile, closing: Closing) -> (r: Vec<char>)
    requires
        tag_ok(src@, tag@),
    ensures
        r@ == spec_render(src@, tag@, *profile, closing),
{
    let name = slice_vec(src, tag.start + 1, tag.name_end);
    let mut out = head_exec(src, tag, profile);
    let multiline = contains_char(out.as_slice(), '\n');
    if profile.layout.closing_bracket_newline && multiline {
        if has_crlf_exec(out.as_slice()) {
            out.push('\r');
            out.push('\n');
        } else {
            out.push('\n');
        }
        let indent = line_indent(src, tag.start);
        push_all(&mut out, indent.as_slice());
    } else {
        match closing {
            Closing::Keep => push_range(&mut out, src, tag.trailing_start, tag.close),
            Closing::SelfClose => out.push(' '),
            _ => {},
        }
    }
    match closing {
        Closing::Keep => {
            if tag.self_closing {
                out.push('/');
            }
            out.push('>');
        },
        Closing::SelfClose => {
            out.push('/');
            out.push('>');
        },
        Closing::OpenOnly => out.push('>'),
        Closing::Expand => {
            out.push('>');
            out.push('<');
            out.push('/');
            push_all(&mut out, name.as_slice());
            out.push('>');
        },
    }
    out
}


/// Elements whose content is raw text and must not be scanned for tags.
pub open spec fn is_raw_text_element(name: Seq<char>) -> bool {
    ||| name == "script"@
    ||| name == "style"@
    ||| name == "textarea"@
    ||| name == "title"@
    ||| name == "xmp"@
    ||| name == "iframe"@
    ||| name == "noembed"@
    ||| name == "noframes"@
}

fn is_raw_text_element_exec(name: &[char]) -> (b: bool)
    ensures
        b == is_raw_text_element(name@),
{
    eq_str(name, "script") || eq_str(name, "style") || eq_str(name, "textarea") || eq_str(
        name,
        "title",
    ) || eq_str(name, "xmp") || eq_str(name, "iframe") || eq_str(name, "noembed") || eq_str(
        name,
        "noframes",
    )
}

/// HTML void elements (lowercased names): they never have content or an end tag.
pub open spec fn is_void(name: Seq<char>) -> bool {
    ||| name == "area"@
    ||| name == "base"@
    ||| name == "br"@
    ||| name == "col"@
    ||| name == "embed"@
    ||| name == "hr"@
    ||| name == "img"@
    ||| name == "input"@
    ||| name == "link"@
    ||| name == "meta"@
    ||| name == "param"@
    ||| name == "source"@
    ||| name == "track"@
    ||| name == "wbr"@
}

fn is_void_exec(name: &[char]) -> (b: bool)
    ensures
        b == is_void(name@),
{
    eq_str(name, "area") || eq_str(name, "base") || eq_str(name, "br") || eq_str(name, "col")
        || eq_str(name, "embed") || eq_str(name, "hr") || eq_str(name, "img") || eq_str(
        name,
        "input",
    ) || eq_str(name, "link") || eq_str(name, "meta") || eq_str(name, "param") || eq_str(
        name,
        "source",
    ) || eq_str(name, "track") || eq_str(name, "wbr")
}

/// Which self-closing rule an element follows.
#[derive(Clone, Copy, Debug, PartialEq, Eq, Structural)]
pub enum ElementKind {
    Void,
    Normal,
    Component,
}

/// The kind of element `name`: components only count in Vue templates.
pub open spec fn element_kind(name: Seq<char>, vue: bool) -> ElementKind {
    if vue && spec_is_component(name) {
        ElementKind::Component
    } else if is_void(lower_seq(name)) {
        ElementKind::Void
    } else {
        ElementKind::Normal
    }
}

/// The self-closing rule for an element of `kind`. SFC top-level blocks are
/// never touched; normal elements and components only in Vue templates.
pub open spec fn closing_rule(layout: Layout, kind: ElementKind, vue: bool, in_markup: bool) -> SelfClosing {
    if !in_markup {
        SelfClosing::Preserve
    } else {
        match kind {
            ElementKind::Void => layout.self_closing.void,
            ElementKind::Normal => if vue {
                layout.self_closing.normal
            } else {
                SelfClosing::Preserve
            },
            ElementKind::Component => if vue {
                layout.self_closing.component
            } else {
                SelfClosing::Preserve
            },
        }
    }
}

/// Self-closing rules never touch the top-level blocks of a Vue single-file
/// component, and in plain HTML they touch void elements only: everywhere
/// else a start tag keeps the closing it was written with.
pub proof fn lemma_self_closing_scope(layout: Layout, kind: ElementKind, vue: bool, in_markup: bool, src: Seq<char>, t: TagSpec)
    ensures
        !in_markup ==> closing_rule(layout, kind, vue, in_markup) == SelfClosing::Preserve,
        !vue && kind != ElementKind::Void ==> closing_rule(layout, kind, vue, in_markup)
            == SelfClosing::Preserve,
        decide_closing(src, t, SelfClosing::Preserve, kind) == (Closing::Keep, t.end),
{
}

/// When the element opened by `t` is empty, the end of its end tag: only
/// whitespace (nothing at all in `pre` and `textarea`, where whitespace is
/// content) up to `</name>` with the same name.
pub open spec fn empty_element_end(src: Seq<char>, t: TagSpec) -> Option<int> {
    let name = tag_name(src, t);
    let low = lower_seq(name);
    let i = if low == "pre"@ || low == "textarea"@ {
        t.end
    } else {
        skip_ws(src, t.end)
    };
    if matches_at(src, i, seq!['<', '/'] + name) {
        let j = skip_ws(src, i + 2 + name.len());
        if j < src.len() && src[j] == '>' {
            Some(j + 1)
        } else {
            None
        }
    } else {
        None
    }
}

/// How the element of `t` is closed under `rule`, and where the replaced
/// source ends (past the end tag when an empty element collapses).
pub open spec fn decide_closing(src: Seq<char>, t: TagSpec, rule: SelfClosing, kind: ElementKind) -> (
    Closing,
    int,
) {
    match rule {
        SelfClosing::Always => if t.self_closing || kind == ElementKind::Void {
            (Closing::SelfClose, t.end)
        } else {
            match empty_element_end(src, t) {
                Some(e) => (Closing::SelfClose, e),
                None => (Closing::Keep, t.end),
            }
        },
        SelfClosing::Never => if t.self_closing {
            if kind == ElementKind::Void {
                (Closing::OpenOnly, t.end)
            } else {
                (Closing::Expand, t.end)
            }
        } else {
            (Closing::Keep, t.end)
        },
        SelfClosing::Preserve => (Closing::Keep, t.end),
    }
}

/// The scanner's state: the read position, how much input is already in
/// `out`, and the output so far.
pub struct ScanState {
    pub pos: int,
    pub copied: int,
    pub out: Seq<char>,
}

/// `src[start..end]` replaced by `text` in the output.
pub open spec fn replaced(src: Seq<char>, st: ScanState, start: int, end: int, text: Seq<char>) -> ScanState {
    ScanState { pos: st.pos, copied: end, out: st.out + src.subrange(st.copied, start) + text }
}

/// The state after the start tag at `st.pos`: the tag, and whether the
/// element is closed by it (nothing to scan as its content).
pub open spec fn spec_start_tag(src: Seq<char>, profile: Profile, vue: bool, st: ScanState, in_markup: bool) -> Result<
    (ScanState, TagSpec, bool),
    FormatErrorView,
> {
    match spec_parse_start_tag(src, st.pos) {
        Err(e) => Err(e),
        Ok(t) => {
            let kind = element_kind(tag_name(src, t), vue);
            let rule = closing_rule(profile.spec_layout(), kind, vue, in_markup);
            let (closing, end) = decide_closing(src, t, rule, kind);
            let text = spec_render(src, t, profile, closing);
            let st2 = if text == src.subrange(t.start, end) {
                ScanState { pos: end, copied: st.copied, out: st.out }
            } else {
                ScanState { pos: end, copied: end, out: st.out + src.subrange(st.copied, t.start) + text }
            };
            Ok((st2, t, t.self_closing || closing == Closing::SelfClose))
        },
    }
}

/// One rewrite made by the scanner: `src[start..end]` replaced by `text`.
pub struct Edit {
    pub start: int,
    pub end: int,
    pub text: Seq<char>,
}

/// What the scanner rewrites: a start tag (from its `<`, followed by a
/// letter, on), or the content of a `<style>` element (from just after the
/// `>` of its start tag up to its `</style`, in any case, or to the end).
pub open spec fn edit_kind_ok(src: Seq<char>, e: Edit) -> bool {
    ||| (e.start + 1 < src.len() && src[e.start] == '<' && is_alpha(src[e.start + 1]))
    ||| (e.start > 0 && src[e.start - 1] == '>' && (e.end == src.len() || matches_at_ic(
        src,
        e.end,
        seq!['<', '/'] + "style"@,
    )))
}

/// The edits lie inside `src`, in order, without overlapping, and each is
/// one the scanner makes.
pub open spec fn edits_ok(src: Seq<char>, edits: Seq<Edit>) -> bool {
    &&& forall|k: int|
        0 <= k < edits.len() ==> 0 <= (#[trigger] edits[k]).start <= edits[k].end <= src.len()
            && edit_kind_ok(src, edits[k])
    &&& forall|k: int| 0 < k < edits.len() ==> edits[k - 1].end <= (#[trigger] edits[k]).start
}

/// Where the last edit ends (0 without edits).
pub open spec fn edits_end(edits: Seq<Edit>) -> int {
    if edits.len() == 0 {
        0
    } else {
        edits.last().end
    }
}

/// `src` up to the end of the last edit, with the edits applied.
pub open spec fn stitched(src: Seq<char>, edits: Seq<Edit>) -> Seq<char>
    decreases edits.len(),
{
    if edits.len() == 0 {
        seq![]
    } else {
        let before = edits.drop_last();
        stitched(src, before) + src.subrange(edits_end(before), edits.last().start) + edits.last().text
    }
}

/// The output so far is the input up to `copied` with some edits applied.
pub open spec fn copy_ok(src: Seq<char>, st: ScanState) -> bool {
    exists|edits: Seq<Edit>|
        #[trigger] edits_ok(src, edits) && st.out == stitched(src, edits) && st.copied == edits_end(
            edits,
        )
}

proof fn lemma_copy_start(src: Seq<char>)
    ensures
        copy_ok(src, ScanState { pos: 0, copied: 0, out: Seq::empty() }),
{
    let none = Seq::<Edit>::empty();
    assert(edits_ok(src, none));
    assert(stitched(src, none) == Seq::<char>::empty());
}

proof fn lemma_copy_push(src: Seq<char>, st: ScanState, e: Edit, pos: int)
    requires
        copy_ok(src, st),
        st.copied <= e.start <= e.end <= src.len(),
        edit_kind_ok(src, e),
    ensures
        copy_ok(src, ScanState { pos, copied: e.end, out: st.out + src.subrange(st.copied, e.start) + e.text }),
{
    let edits = choose|edits: Seq<Edit>|
        #[trigger] edits_ok(src, edits) && st.out == stitched(src, edits) && st.copied == edits_end(edits);
    let more = edits.push(e);
    assert(more.drop_last() == edits);
    assert forall|k: int| 0 < k < more.len() implies more[k - 1].end <= (#[trigger] more[k]).start by {
        if k == more.len() - 1 {
            if k > 0 {
                assert(more[k - 1] == edits.last());
            }
        }
    }
    assert(edits_ok(src, more));
    assert(stitched(src, more) == st.out + src.subrange(st.copied, e.start) + e.text);
}

/// The state is consistent with `src`.
pub open spec fn state_ok(src: Seq<char>, st: ScanState) -> bool {
    0 <= st.copied <= st.pos <= src.len()
}

/// The input cursor of the scanner.
pub struct Cursor {
    pub pos: usize,
    pub copied: usize,
    pub out: Vec<char>,
}

impl View for Cursor {
    type V = ScanState;

    open spec fn view(&self) -> ScanState {
        ScanState { pos: self.pos as int, copied: self.copied as int, out: self.out@ }
    }
}

fn empty_element_end_exec(src: &[char], tag: &StartTag) -> (r: Option<usize>)
    requires
        tag_ok(src@, tag@),
    ensures
        (match r {
            Some(e) => Some(e as int),
            None => None,
        }) == empty_element_end(src@, tag@),
        r matches Some(e) ==> tag.end < e <= src.len(),
{
    let name = slice_vec(src, tag.start + 1, tag.name_end);
    let low = lower_vec(name.as_slice());
    let i = if eq_str(low.as_slice(), "pre") || eq_str(low.as_slice(), "textarea") {
        tag.end
    } else {
        skip_ws_exec(src, tag.end)
    };
    let mut end_tag = vec!['<', '/'];
    push_all(&mut end_tag, name.as_slice());
    assert(end_tag@ == seq!['<', '/'] + name@);
    if matches_at_exec(src, i, end_tag.as_slice()) {
        let n = src.len();
        assert(i + end_tag@.len() <= n);
        let j = skip_ws_exec(src, i + end_tag.len());
        if j < src.len() && src[j] == '>' {
            Some(j + 1)
        } else {
            None
        }
    } else {
        None
    }
}

/// Tokenizes the start tag at `cur.pos`, rewrites it, and advances past it
/// (and past the end tag of an empty element that collapses).
fn start_tag(src: &[char], profile: &Profile, vue: bool, cur: Cursor, in_markup: bool) -> (r: Result<
    (Cursor, StartTag, bool),
    FormatError,
>)
    requires
        state_ok(src@, cur@),
        copy_ok(src@, cur@),
        cur.pos + 1 < src.len(),
        src@[cur.pos as int] == '<',
        is_alpha(src@[cur.pos + 1]),
    ensures
        (match r {
            Ok((c, t, closed)) => Ok((c@, t@, closed)),
            Err(e) => Err(e@),
        }) == spec_start_tag(src@, *profile, vue, cur@, in_markup),
        r matches Ok((c, t, closed)) ==> state_ok(src@, c@) && c.pos > cur.pos && tag_ok(src@, t@)
            && t.start == cur.pos && copy_ok(src@, c@) && (!closed ==> c.pos == t.end
            && !t.self_closing),
{
    let ghost before = cur@;
    let tag = match parse_start_tag(src, cur.pos) {
        Ok(t) => t,
        Err(e) => {
            return Err(e);
        },
    };
    let name = slice_vec(src, tag.start + 1, tag.name_end);
    let kind = if vue && is_component_chars(name.as_slice()) {
        ElementKind::Component
    } else {
        let low = lower_vec(name.as_slice());
        if is_void_exec(low.as_slice()) {
            ElementKind::Void
        } else {
            ElementKind::Normal
        }
    };
    let layout = profile.layout;
    let rule = if !in_markup {
        SelfClosing::Preserve
    } else {
        match kind {
            ElementKind::Void => layout.self_closing.void,
            ElementKind::Normal => if vue {
                layout.self_closing.normal
            } else {
                SelfClosing::Preserve
            },
            ElementKind::Component => if vue {
                layout.self_closing.component
            } else {
                SelfClosing::Preserve
            },
        }
    };
    let (closing, end): (Closing, usize) = match rule {
        SelfClosing::Always => if tag.self_closing || kind == ElementKind::Void {
            (Closing::SelfClose, tag.end)
        } else {
            match empty_element_end_exec(src, &tag) {
                Some(e) => (Closing::SelfClose, e),
                None => (Closing::Keep, tag.end),
            }
        },
        SelfClosing::Never => if tag.self_closing {
            if kind == ElementKind::Void {
                (Closing::OpenOnly, tag.end)
            } else {
                (Closing::Expand, tag.end)
            }
        } else {
            (Closing::Keep, tag.end)
        },
        SelfClosing::Preserve => (Closing::Keep, tag.end),
    };
    assert((closing, end as int) == decide_closing(src@, tag@, rule, kind));
    let text = render(src, &tag, profile, closing);
    let written = slice_vec(src, tag.start, end);
    let mut cur = cur;
    if seq_eq(text.as_slice(), written.as_slice()) {
        cur.pos = end;
    } else {
        push_range(&mut cur.out, src, cur.copied, tag.start);
        push_all(&mut cur.out, text.as_slice());
        cur.copied = end;
        cur.pos = end;
        proof {
            lemma_copy_push(
                src@,
                before,
                Edit { start: tag.start as int, end: end as int, text: text@ },
                end as int,
            );
        }
    }
    let closed = tag.self_closing || closing == Closing::SelfClose;
    Ok((cur, tag, closed))
}


/// Index of the first attribute from `k` on whose name is `name`, ignoring ASCII case.
pub open spec fn attr_index(src: Seq<char>, attrs: Seq<AttrSpan>, k: int, name: Seq<char>) -> Option<int>
    decreases attrs.len() - k,
{
    if k < 0 || k >= attrs.len() {
        None
    } else if eq_ic(src.subrange(attrs[k].name_start as int, attrs[k].name_end as int), name) {
        Some(k)
    } else {
        attr_index(src, attrs, k + 1, name)
    }
}

/// The lowercased value of the tag's first `lang` attribute, if it has one.
pub open spec fn lang_of(src: Seq<char>, t: TagSpec) -> Option<Seq<char>> {
    match attr_index(src, t.attrs, 0, "lang"@) {
        None => None,
        Some(k) => match t.attrs[k].value {
            None => None,
            Some(v) => Some(lower_seq(src.subrange(v.0 as int, v.1 as int))),
        },
    }
}

fn lang_of_exec(src: &[char], tag: &StartTag) -> (r: Option<Vec<char>>)
    requires
        tag_ok(src@, tag@),
    ensures
        (match r {
            Some(v) => Some(v@),
            None => None,
        }) == lang_of(src@, tag@),
{
    proof {
        reveal(spans_ok);
    }
    let mut k: usize = 0;
    while k < tag.attrs.len()
        invariant
            k <= tag.attrs.len(),
            tag_ok(src@, tag@),
            spans_ok(src@, tag.name_end as int, tag.attrs@, tag.trailing_start as int),
            attr_index(src@, tag.attrs@, k as int, "lang"@) == attr_index(src@, tag.attrs@, 0, "lang"@),
        decreases tag.attrs.len() - k,
    {
        let a = tag.attrs[k];
        proof {
            reveal(spans_ok);
            assert(a == tag.attrs@[k as int]);
        }
        let name = slice_vec(src, a.name_start, a.name_end);
        if eq_ic_str(name.as_slice(), "lang") {
            return match a.value {
                None => None,
                Some(v) => {
                    let value = slice_vec(src, v.0, v.1);
                    Some(lower_vec(value.as_slice()))
                },
            };
        }
        k += 1;
    }
    None
}

/// Raw text from `st.pos` up to `</name` (any case), skipped; a stylesheet's
/// content is formatted when the profile has stylesheet settings and the
/// `lang` is one annealer formats.
pub open spec fn spec_raw_text(
    src: Seq<char>,
    profile: Profile,
    st: ScanState,
    name: Seq<char>,
    style_lang: Option<Seq<char>>,
) -> Result<ScanState, FormatErrorView> {
    let start = st.pos;
    let end = match find_from_ic(src, start, seq!['<', '/'] + name) {
        Some(e) => e,
        None => src.len() as int,
    };
    let st1 = ScanState { pos: end, copied: st.copied, out: st.out };
    if name != "style"@ {
        Ok(st1)
    } else {
        match (profile.spec_stylesheet(), spec_from_lang(style_lang)) {
            (Some(sheet), Some(lang)) => {
                let content = src.subrange(start, end);
                if all_unicode_ws(content) {
                    Ok(st1)
                } else {
                    match spec_format_embedded(
                        content,
                        lang,
                        sheet.spec_source(),
                        spec_line_indent(src, end),
                    ) {
                        Ok(f) => if f != content {
                            Ok(replaced(src, st1, start, end, f))
                        } else {
                            Ok(st1)
                        },
                        Err(m) => Err(
                            FormatErrorView::Stylesheet {
                                line: spec_line(src, start),
                                column: spec_column(src, start),
                                message: m,
                            },
                        ),
                    }
                }
            },
            _ => Ok(st1),
        }
    }
}

fn raw_text(
    src: &[char],
    profile: &Profile,
    cur: Cursor,
    name: &[char],
    style_lang: Option<Vec<char>>,
) -> (r: Result<Cursor, FormatError>)
    requires
        state_ok(src@, cur@),
        copy_ok(src@, cur@),
        cur.pos > 0,
        src@[cur.pos - 1] == '>',
    ensures
        (match r {
            Ok(c) => Ok(c@),
            Err(e) => Err(e@),
        }) == spec_raw_text(
            src@,
            *profile,
            cur@,
            name@,
            match style_lang {
                Some(l) => Some(l@),
                None => None,
            },
        ),
        r matches Ok(c) ==> state_ok(src@, c@) && c.pos >= cur.pos && copy_ok(src@, c@),
{
    let ghost before = cur@;
    let start = cur.pos;
    let mut pattern = vec!['<', '/'];
    push_all(&mut pattern, name);
    assert(pattern@ == seq!['<', '/'] + name@);
    proof {
        lemma_find_from_ic_bounds(src@, start as int, pattern@);
    }
    let end = match find_ic_exec(src, start, pattern.as_slice()) {
        Some(e) => e,
        None => src.len(),
    };
    let mut cur = cur;
    cur.pos = end;
    if !eq_str(name, "style") {
        return Ok(cur);
    }
    let lang = match &style_lang {
        Some(l) => StyleLang::from_lang(Some(l.as_slice())),
        None => StyleLang::from_lang(None),
    };
    let (sheet, lang) = match (&profile.stylesheet, lang) {
        (Some(sheet), Some(lang)) => (sheet, lang),
        _ => {
            return Ok(cur);
        },
    };
    if all_unicode_ws_exec(src, start, end) {
        return Ok(cur);
    }
    let content = slice_vec(src, start, end);
    let base_indent = line_indent(src, end);
    match format_embedded(content.as_slice(), lang, sheet, base_indent.as_slice()) {
        Ok(formatted) => {
            if !seq_eq(formatted.as_slice(), content.as_slice()) {
                push_range(&mut cur.out, src, cur.copied, start);
                push_all(&mut cur.out, formatted.as_slice());
                cur.copied = end;
                proof {
                    assert(pattern@ == seq!['<', '/'] + "style"@);
                    lemma_copy_push(
                        src@,
                        before,
                        Edit { start: start as int, end: end as int, text: formatted@ },
                        end as int,
                    );
                }
            }
            Ok(cur)
        },
        Err(message) => {
            let (line, column) = line_col(src, start);
            Err(FormatError::Stylesheet { line, column, message })
        },
    }
}


/// First index at or after `i` holding `<`, or `{` in a Vue template.
pub open spec fn next_special(src: Seq<char>, i: int, vue: bool) -> Option<int>
    decreases src.len() - i,
{
    if i < 0 || i >= src.len() {
        None
    } else if src[i] == '<' || (vue && src[i] == '{') {
        Some(i)
    } else {
        next_special(src, i + 1, vue)
    }
}

/// `src[p]` starts a start tag: `<` followed by an ASCII letter.
pub open spec fn at_start_tag(src: Seq<char>, p: int) -> bool {
    p + 1 < src.len() && is_alpha(src[p + 1])
}

/// The state with the read position moved to `pos`.
pub open spec fn at_pos(st: ScanState, pos: int) -> ScanState {
    ScanState { pos, copied: st.copied, out: st.out }
}

/// One step of the markup scanner.
pub enum MarkupStep {
    /// The `</template>` that closes the enclosing SFC block was reached.
    Exit(ScanState),
    /// Go on from this state, with this `<template>` nesting depth.
    Next(ScanState, nat),
}

/// What follows a start tag in markup: a nested `<template>` deepens the
/// nesting, `<style>` and other raw-text elements are skipped as raw text.
pub open spec fn after_start_tag(
    src: Seq<char>,
    profile: Profile,
    st: ScanState,
    t: TagSpec,
    depth: nat,
) -> Result<MarkupStep, FormatErrorView> {
    let name = lower_seq(tag_name(src, t));
    if name == "template"@ {
        Ok(MarkupStep::Next(st, depth + 1))
    } else if name == "style"@ {
        match spec_raw_text(src, profile, st, "style"@, lang_of(src, t)) {
            Err(e) => Err(e),
            Ok(st3) => Ok(MarkupStep::Next(st3, depth)),
        }
    } else if is_raw_text_element(name) {
        match spec_raw_text(src, profile, st, name, None) {
            Err(e) => Err(e),
            Ok(st3) => Ok(MarkupStep::Next(st3, depth)),
        }
    } else {
        Ok(MarkupStep::Next(st, depth))
    }
}

/// One step of the markup scanner at the special character `src[st.pos]`:
/// interpolations, comments, declarations and end tags are skipped; start
/// tags are rewritten. With `in_template`, the `</template>` at depth 0 ends
/// the scan.
pub open spec fn markup_step(
    src: Seq<char>,
    profile: Profile,
    vue: bool,
    st: ScanState,
    in_template: bool,
    depth: nat,
) -> Result<MarkupStep, FormatErrorView> {
    let p = st.pos;
    if matches_at(src, p, "{{"@) {
        Ok(MarkupStep::Next(at_pos(st, skip_past(src, p, "}}"@)), depth))
    } else if matches_at(src, p, "{"@) {
        Ok(MarkupStep::Next(at_pos(st, p + 1), depth))
    } else if matches_at(src, p, "<!--"@) {
        Ok(MarkupStep::Next(at_pos(st, skip_past(src, p, "-->"@)), depth))
    } else if matches_at(src, p, "<!"@) || matches_at(src, p, "<?"@) {
        Ok(MarkupStep::Next(at_pos(st, skip_past(src, p, ">"@)), depth))
    } else if matches_at(src, p, "</"@) {
        let name = src.subrange(p + 2, name_end_from(src, p + 2));
        if in_template && eq_ic(name, "template"@) {
            if depth == 0 {
                Ok(MarkupStep::Exit(st))
            } else {
                Ok(MarkupStep::Next(at_pos(st, skip_past(src, p, ">"@)), (depth - 1) as nat))
            }
        } else {
            Ok(MarkupStep::Next(at_pos(st, skip_past(src, p, ">"@)), depth))
        }
    } else if at_start_tag(src, p) {
        match spec_start_tag(src, profile, vue, st, true) {
            Err(e) => Err(e),
            Ok((st2, t, closed)) => if closed {
                Ok(MarkupStep::Next(st2, depth))
            } else {
                after_start_tag(src, profile, st2, t, depth)
            },
        }
    } else {
        Ok(MarkupStep::Next(at_pos(st, p + 1), depth))
    }
}

/// The markup scanner from `st` on.
pub open spec fn markup_loop(
    src: Seq<char>,
    profile: Profile,
    vue: bool,
    st: ScanState,
    in_template: bool,
    depth: nat,
) -> Result<ScanState, FormatErrorView>
    decreases src.len() - st.pos,
{
    if st.pos >= src.len() {
        Ok(st)
    } else {
        match next_special(src, st.pos, vue) {
            None => Ok(at_pos(st, src.len() as int)),
            Some(p) => match markup_step(src, profile, vue, at_pos(st, p), in_template, depth) {
                Err(e) => Err(e),
                Ok(MarkupStep::Exit(s2)) => Ok(s2),
                Ok(MarkupStep::Next(s2, d2)) => if st.pos < s2.pos <= src.len() {
                    markup_loop(src, profile, vue, s2, in_template, d2)
                } else {
                    Ok(s2)
                },
            },
        }
    }
}

fn next_special_exec(src: &[char], i: usize, vue: bool) -> (r: Option<usize>)
    requires
        i <= src.len(),
    ensures
        (match r {
            Some(p) => Some(p as int),
            None => None,
        }) == next_special(src@, i as int, vue),
        r matches Some(p) ==> i <= p < src.len() && (src@[p as int] == '<' || src@[p as int] == '{'),
{
    let mut j = i;
    while j < src.len()
        invariant
            i <= j <= src.len(),
            next_special(src@, j as int, vue) == next_special(src@, i as int, vue),
        decreases src.len() - j,
    {
        if src[j] == '<' || (vue && src[j] == '{') {
            return Some(j);
        }
        j += 1;
    }
    None
}

fn skip_past_str(src: &[char], from: usize, lit: &str) -> (r: usize)
    requires
        from <= src.len(),
    ensures
        r == skip_past(src@, from as int, lit@),
        from <= r <= src.len(),
        r == src.len() || r >= from + lit@.len(),
{
    let p = to_chars(lit);
    proof {
        lemma_find_from_bounds(src@, from as int, p@);
    }
    let r = skip_past_exec(src, from, p.as_slice());
    assert(r == src.len() || r >= from + lit@.len());
    r
}

fn after_start_tag_exec(
    src: &[char],
    profile: &Profile,
    cur: Cursor,
    tag: &StartTag,
    depth: usize,
) -> (r: Result<(Cursor, usize), FormatError>)
    requires
        state_ok(src@, cur@),
        copy_ok(src@, cur@),
        tag_ok(src@, tag@),
        !tag.self_closing,
        cur.pos == tag.end,
        depth < cur.pos,
    ensures
        (match r {
            Ok((c, d)) => Ok(MarkupStep::Next(c@, d as nat)),
            Err(e) => Err(e@),
        }) == after_start_tag(src@, *profile, cur@, tag@, depth as nat),
        r matches Ok((c, d)) ==> state_ok(src@, c@) && c.pos >= cur.pos && d <= c.pos && copy_ok(
            src@,
            c@,
        ),
{
    let name = slice_vec(src, tag.start + 1, tag.name_end);
    let low = lower_vec(name.as_slice());
    if eq_str(low.as_slice(), "template") {
        return Ok((cur, depth + 1));
    }
    if eq_str(low.as_slice(), "style") {
        let lang = lang_of_exec(src, tag);
        let style = to_chars("style");
        return match raw_text(src, profile, cur, style.as_slice(), lang) {
            Err(e) => Err(e),
            Ok(c) => Ok((c, depth)),
        };
    }
    if is_raw_text_element_exec(low.as_slice()) {
        return match raw_text(src, profile, cur, low.as_slice(), None) {
            Err(e) => Err(e),
            Ok(c) => Ok((c, depth)),
        };
    }
    Ok((cur, depth))
}

/// One step of the markup scanner at a special character; `true` when the
/// enclosing SFC `</template>` is reached.
fn markup_step_exec(
    src: &[char],
    profile: &Profile,
    vue: bool,
    cur: Cursor,
    in_template: bool,
    depth: usize,
) -> (r: Result<(Cursor, usize, bool), FormatError>)
    requires
        state_ok(src@, cur@),
        copy_ok(src@, cur@),
        cur.pos < src.len(),
        src@[cur.pos as int] == '<' || src@[cur.pos as int] == '{',
        depth <= cur.pos,
    ensures
        (match r {
            Ok((c, d, exit)) => Ok(
                if exit {
                    MarkupStep::Exit(c@)
                } else {
                    MarkupStep::Next(c@, d as nat)
                },
            ),
            Err(e) => Err(e@),
        }) == markup_step(src@, *profile, vue, cur@, in_template, depth as nat),
        r matches Ok((c, d, exit)) ==> state_ok(src@, c@) && copy_ok(src@, c@) && (!exit ==> c.pos
            > cur.pos && d <= c.pos),
{
    let p = cur.pos;
    let mut cur = cur;
    proof {
        reveal_strlit("{");
        reveal_strlit("}}");
        reveal_strlit("-->");
        reveal_strlit(">");
        reveal_strlit("</");
    }
    if at_str(src, p, "{{") {
        cur.pos = skip_past_str(src, p, "}}");
        return Ok((cur, depth, false));
    }
    if at_str(src, p, "{") {
        cur.pos = p + 1;
        return Ok((cur, depth, false));
    }
    if at_str(src, p, "<!--") {
        cur.pos = skip_past_str(src, p, "-->");
        return Ok((cur, depth, false));
    }
    if at_str(src, p, "<!") || at_str(src, p, "<?") {
        cur.pos = skip_past_str(src, p, ">");
        return Ok((cur, depth, false));
    }
    if at_str(src, p, "</") {
        let name_end = name_end_exec(src, p + 2);
        let name = slice_vec(src, p + 2, name_end);
        if in_template && eq_ic_str(name.as_slice(), "template") {
            if depth == 0 {
                return Ok((cur, depth, true));
            }
            cur.pos = skip_past_str(src, p, ">");
            return Ok((cur, depth - 1, false));
        }
        cur.pos = skip_past_str(src, p, ">");
        return Ok((cur, depth, false));
    }
    if p + 1 < src.len() && is_alpha_exec(src[p + 1]) {
        assert(src@[p as int] != '{') by {
            if src@[p as int] == '{' {
                assert(src@.subrange(p as int, p + 1) =~= "{"@);
            }
        }
        let (cur, tag, closed) = match start_tag(src, profile, vue, cur, true) {
            Ok(v) => v,
            Err(e) => {
                return Err(e);
            },
        };
        if closed {
            return Ok((cur, depth, false));
        }
        return match after_start_tag_exec(src, profile, cur, &tag, depth) {
            Ok((c, d)) => Ok((c, d, false)),
            Err(e) => Err(e),
        };
    }
    cur.pos = p + 1;
    Ok((cur, depth, false))
}

/// Scans markup from `cur` on. With `in_template`, stops at the
/// `</template>` that closes the enclosing SFC block.
fn scan_markup(src: &[char], profile: &Profile, vue: bool, init: Cursor, in_template: bool) -> (r: Result<
    Cursor,
    FormatError,
>)
    requires
        state_ok(src@, init@),
        copy_ok(src@, init@),
    ensures
        (match r {
            Ok(c) => Ok(c@),
            Err(e) => Err(e@),
        }) == markup_loop(src@, *profile, vue, init@, in_template, 0),
        r matches Ok(c) ==> state_ok(src@, c@) && c.pos >= init.pos && copy_ok(src@, c@),
{
    let ghost start = init@;
    let mut cur = init;
    let mut depth: usize = 0;
    while cur.pos < src.len()
        invariant
            state_ok(src@, cur@),
            copy_ok(src@, cur@),
            start == init@,
            cur.pos >= start.pos,
            depth <= cur.pos,
            markup_loop(src@, *profile, vue, cur@, in_template, depth as nat) == markup_loop(
                src@,
                *profile,
                vue,
                start,
                in_template,
                0,
            ),
        decreases src.len() - cur.pos,
    {
        let ghost before = cur@;
        match next_special_exec(src, cur.pos, vue) {
            None => {
                cur.pos = src.len();
                assert(markup_loop(src@, *profile, vue, before, in_template, depth as nat) == Ok::<ScanState, FormatErrorView>(at_pos(before, src@.len() as int)));
                assert(cur@ == at_pos(before, src@.len() as int));
                return Ok(cur);
            },
            Some(p) => {
                cur.pos = p;
                match markup_step_exec(src, profile, vue, cur, in_template, depth) {
                    Err(e) => {
                        return Err(e);
                    },
                    Ok((c, d, exit)) => {
                        if exit {
                            return Ok(c);
                        }
                        cur = c;
                        depth = d;
                    },
                }
            },
        }
        assert(cur.pos > before.pos);
    }
    Ok(cur)
}


/// What follows a start tag at the top level of a Vue single-file component:
/// a `<template>` in HTML is markup up to its closing `</template>`, a
/// `<style>` is a stylesheet, any other block is raw text.
pub open spec fn after_block_tag(
    src: Seq<char>,
    profile: Profile,
    st: ScanState,
    t: TagSpec,
) -> Result<ScanState, FormatErrorView> {
    let name = lower_seq(tag_name(src, t));
    let lang = lang_of(src, t);
    if name == "template"@ && (lang == None::<Seq<char>> || lang == Some("html"@)) {
        markup_loop(src, profile, true, st, true, 0)
    } else if name == "style"@ {
        spec_raw_text(src, profile, st, "style"@, lang)
    } else {
        spec_raw_text(src, profile, st, name, None)
    }
}

/// One step of the single-file-component scanner at the `<` at `st.pos`.
pub open spec fn sfc_step(src: Seq<char>, profile: Profile, st: ScanState) -> Result<
    ScanState,
    FormatErrorView,
> {
    let p = st.pos;
    if matches_at(src, p, "<!--"@) {
        Ok(at_pos(st, skip_past(src, p, "-->"@)))
    } else if matches_at(src, p, "<!"@) || matches_at(src, p, "<?"@) || matches_at(src, p, "</"@) {
        Ok(at_pos(st, skip_past(src, p, ">"@)))
    } else if at_start_tag(src, p) {
        match spec_start_tag(src, profile, true, st, false) {
            Err(e) => Err(e),
            Ok((st2, t, closed)) => if closed {
                Ok(st2)
            } else {
                after_block_tag(src, profile, st2, t)
            },
        }
    } else {
        Ok(at_pos(st, p + 1))
    }
}

/// The single-file-component scanner from `st` on.
pub open spec fn sfc_loop(src: Seq<char>, profile: Profile, st: ScanState) -> Result<
    ScanState,
    FormatErrorView,
>
    decreases src.len() - st.pos,
{
    if st.pos >= src.len() {
        Ok(st)
    } else {
        match find_from(src, st.pos, "<"@) {
            None => Ok(st),
            Some(p) => match sfc_step(src, profile, at_pos(st, p)) {
                Err(e) => Err(e),
                Ok(s2) => if st.pos < s2.pos <= src.len() {
                    sfc_loop(src, profile, s2)
                } else {
                    Ok(s2)
                },
            },
        }
    }
}

/// The formatted markup: every start tag rewritten by `profile`, embedded
/// stylesheets formatted, everything else copied through.
pub open spec fn spec_scan(src: Seq<char>, profile: Profile, vue: bool) -> Result<
    Seq<char>,
    FormatErrorView,
> {
    let init = ScanState { pos: 0, copied: 0, out: Seq::empty() };
    let r = if vue {
        sfc_loop(src, profile, init)
    } else {
        markup_loop(src, profile, false, init, false, 0)
    };
    match r {
        Err(e) => Err(e),
        Ok(st) => Ok(st.out + src.subrange(st.copied, src.len() as int)),
    }
}

fn after_block_tag_exec(src: &[char], profile: &Profile, cur: Cursor, tag: &StartTag) -> (r: Result<
    Cursor,
    FormatError,
>)
    requires
        state_ok(src@, cur@),
        copy_ok(src@, cur@),
        tag_ok(src@, tag@),
        !tag.self_closing,
        cur.pos == tag.end,
    ensures
        (match r {
            Ok(c) => Ok(c@),
            Err(e) => Err(e@),
        }) == after_block_tag(src@, *profile, cur@, tag@),
        r matches Ok(c) ==> state_ok(src@, c@) && c.pos >= cur.pos && copy_ok(src@, c@),
{
    let name = slice_vec(src, tag.start + 1, tag.name_end);
    let low = lower_vec(name.as_slice());
    let lang = lang_of_exec(src, tag);
    proof {
        reveal_strlit("html");
    }
    let html_lang = match &lang {
        None => true,
        Some(l) => eq_str(l.as_slice(), "html"),
    };
    if eq_str(low.as_slice(), "template") && html_lang {
        return scan_markup(src, profile, true, cur, true);
    }
    if eq_str(low.as_slice(), "style") {
        let style = to_chars("style");
        return raw_text(src, profile, cur, style.as_slice(), lang);
    }
    raw_text(src, profile, cur, low.as_slice(), None)
}

fn sfc_step_exec(src: &[char], profile: &Profile, cur: Cursor) -> (r: Result<Cursor, FormatError>)
    requires
        state_ok(src@, cur@),
        copy_ok(src@, cur@),
        cur.pos < src.len(),
        src@[cur.pos as int] == '<',
    ensures
        (match r {
            Ok(c) => Ok(c@),
            Err(e) => Err(e@),
        }) == sfc_step(src@, *profile, cur@),
        r matches Ok(c) ==> state_ok(src@, c@) && c.pos > cur.pos && copy_ok(src@, c@),
{
    let p = cur.pos;
    let mut cur = cur;
    proof {
        reveal_strlit("-->");
        reveal_strlit(">");
    }
    if at_str(src, p, "<!--") {
        cur.pos = skip_past_str(src, p, "-->");
        return Ok(cur);
    }
    if at_str(src, p, "<!") || at_str(src, p, "<?") || at_str(src, p, "</") {
        cur.pos = skip_past_str(src, p, ">");
        return Ok(cur);
    }
    if p + 1 < src.len() && is_alpha_exec(src[p + 1]) {
        let (cur, tag, closed) = match start_tag(src, profile, true, cur, false) {
            Ok(v) => v,
            Err(e) => {
                return Err(e);
            },
        };
        if closed {
            return Ok(cur);
        }
        return after_block_tag_exec(src, profile, cur, &tag);
    }
    cur.pos = p + 1;
    Ok(cur)
}

fn scan_sfc(src: &[char], profile: &Profile, init: Cursor) -> (r: Result<Cursor, FormatError>)
    requires
        state_ok(src@, init@),
        copy_ok(src@, init@),
    ensures
        (match r {
            Ok(c) => Ok(c@),
            Err(e) => Err(e@),
        }) == sfc_loop(src@, *profile, init@),
        r matches Ok(c) ==> state_ok(src@, c@) && copy_ok(src@, c@),
{
    let ghost start = init@;
    let mut cur = init;
    let lt = vec!['<'];
    assert(lt@ == "<"@) by {
        reveal_strlit("<");
    }
    while cur.pos < src.len()
        invariant
            state_ok(src@, cur@),
            copy_ok(src@, cur@),
            start == init@,
            lt@ == "<"@,
            sfc_loop(src@, *profile, cur@) == sfc_loop(src@, *profile, start),
        decreases src.len() - cur.pos,
    {
        let ghost before = cur@;
        proof {
            reveal_strlit("<");
            lemma_find_from_bounds(src@, cur.pos as int, lt@);
        }
        match find_exec(src, cur.pos, lt.as_slice()) {
            None => {
                return Ok(cur);
            },
            Some(p) => {
                cur.pos = p;
                assert(src@[p as int] == '<') by {
                    assert(src@.subrange(p as int, p + 1)[0] == src@[p as int]);
                }
                match sfc_step_exec(src, profile, cur) {
                    Err(e) => {
                        return Err(e);
                    },
                    Ok(c) => {
                        cur = c;
                    },
                }
            },
        }
        assert(cur.pos > before.pos);
    }
    Ok(cur)
}

/// Formats a markup document (a Vue single-file component when `vue`):
/// start tags are rewritten by `profile`, embedded stylesheets formatted,
/// and everything else is copied through unchanged: the output is the input
/// with ordered, non-overlapping edits of start tags and `<style>` contents.
pub fn scan(src: &[char], profile: &Profile, vue: bool) -> (r: Result<Vec<char>, FormatError>)
    ensures
        (match r {
            Ok(v) => Ok(v@),
            Err(e) => Err(e@),
        }) == spec_scan(src@, *profile, vue),
        r matches Ok(v) ==> exists|edits: Seq<Edit>|
            #[trigger] edits_ok(src@, edits) && v@ == stitched(src@, edits) + src@.subrange(
                edits_end(edits),
                src@.len() as int,
            ),
{
    let init = Cursor { pos: 0, copied: 0, out: Vec::new() };
    proof {
        lemma_copy_start(src@);
    }
    let r = if vue {
        scan_sfc(src, profile, init)
    } else {
        scan_markup(src, profile, false, init, false)
    };
    match r {
        Err(e) => Err(e),
        Ok(c) => {
            let ghost edits = choose|edits: Seq<Edit>|
                #[trigger] edits_ok(src@, edits) && c.out@ == stitched(src@, edits) && c.copied
                    == edits_end(edits);
            let mut out = c.out;
            push_range(&mut out, src, c.copied, src.len());
            assert(edits_ok(src@, edits));
            Ok(out)
        },
    }
}


proof fn lemma_no_lt_no_special(src: Seq<char>, i: int)
    requires
        0 <= i,
        forall|j: int| 0 <= j < src.len() ==> src[j] != '<',
    ensures
        next_special(src, i, false) is None,
        find_from(src, i, "<"@) is None,
    decreases src.len() + 1 - i,
{
    reveal_strlit("<");
    if i < src.len() {
        lemma_no_lt_no_special(src, i + 1);
        assert(!matches_at(src, i, "<"@)) by {
            if matches_at(src, i, "<"@) {
                assert(src.subrange(i, i + 1)[0] == src[i]);
            }
        }
    }
}

/// Markup without any `<` has no tag to rewrite: it is returned unchanged,
/// in HTML and in a Vue single-file component alike.
pub proof fn lemma_text_without_tags_unchanged(src: Seq<char>, profile: Profile, vue: bool)
    requires
        forall|j: int| 0 <= j < src.len() ==> src[j] != '<',
    ensures
        spec_scan(src, profile, vue) == Ok::<Seq<char>, FormatErrorView>(src),
{
    lemma_no_lt_no_special(src, 0);
    assert(Seq::<char>::empty() + src.subrange(0, src.len() as int) == src);
    assert(Seq::<char>::empty() + src.subrange(src.len() as int, src.len() as int) + src.subrange(0, src.len() as int) == src);
}


/// `src[from..to]` holds only ASCII whitespace and `/`.
pub open spec fn seps_only(src: Seq<char>, from: int, to: int) -> bool {
    forall|k: int| from <= k < to ==> is_ws(#[trigger] src[k]) || src[k] == '/'
}

/// The source of the first `k` attributes: each separator, name and rest.
pub open spec fn attrs_source(src: Seq<char>, attrs: Seq<AttrSpan>, k: int) -> Seq<char>
    decreases k,
{
    if k <= 0 {
        seq![]
    } else {
        attrs_source(src, attrs, k - 1) + attr_sep(src, attrs[k - 1]) + src.subrange(
            attrs[k - 1].name_start as int,
            attrs[k - 1].name_end as int,
        ) + attr_rest(src, attrs[k - 1])
    }
}

proof fn lemma_sep_end_seps(src: Seq<char>, i: int)
    requires
        0 <= i <= src.len(),
    ensures
        seps_only(src, i, sep_end(src, i)),
    decreases src.len() - i,
{
    if i < src.len() && (is_ws(src[i]) || stray_slash(src, i)) {
        lemma_sep_end_seps(src, i + 1);
    }
}

proof fn lemma_skip_ws_bounds(s: Seq<char>, i: int)
    requires
        0 <= i <= s.len(),
    ensures
        i <= skip_ws(s, i) <= s.len(),
    decreases s.len() - i,
{
    if i < s.len() && is_ws(s[i]) {
        lemma_skip_ws_bounds(s, i + 1);
    }
}

proof fn lemma_char_from_bounds(s: Seq<char>, i: int, q: char)
    requires
        0 <= i,
    ensures
        char_from(s, i, q) matches Some(k) ==> i <= k < s.len(),
    decreases s.len() - i,
{
    if i < s.len() && s[i] != q {
        lemma_char_from_bounds(s, i + 1, q);
    }
}

proof fn lemma_unquoted_end_bounds(s: Seq<char>, i: int)
    requires
        0 <= i <= s.len(),
    ensures
        i <= unquoted_end(s, i) <= s.len(),
    decreases s.len() - i,
{
    if i < s.len() && !is_ws(s[i]) && s[i] != '>' {
        lemma_unquoted_end_bounds(s, i + 1);
    }
}

proof fn lemma_attr_value_bounds(src: Seq<char>, start: int, name_start: int, name_end: int)
    requires
        src.len() <= usize::MAX,
        0 <= name_end <= src.len(),
    ensures
        attr_value(src, start, name_start, name_end) matches Ok((e, v)) ==> name_end <= e
            <= src.len() && (v matches Some(w) ==> name_end <= w.0 <= w.1 <= e),
{
    lemma_skip_ws_bounds(src, name_end);
    let after_name = skip_ws(src, name_end);
    if after_name < src.len() && src[after_name] == '=' {
        lemma_skip_ws_bounds(src, after_name + 1);
        let value_start = skip_ws(src, after_name + 1);
        if value_start < src.len() {
            lemma_char_from_bounds(src, value_start + 1, src[value_start]);
            lemma_unquoted_end_bounds(src, value_start);
        }
    }
}

/// What [`parse_attrs`] finds, from `i` on after the attributes `acc`: the
/// spans stay in order, separators and the trailing text hold only
/// whitespace and `/`, and the tag closes with `>` or `/>`.
proof fn lemma_parse_attrs_ok(src: Seq<char>, start: int, name_end: int, i: int, acc: Seq<AttrSpan>)
    requires
        src.len() <= usize::MAX,
        0 <= name_end <= i <= src.len(),
        spans_ok(src, name_end, acc, i),
        acc.len() == 0 ==> i == name_end,
        acc.len() > 0 ==> i == acc.last().end,
        forall|k: int|
            0 <= k < acc.len() ==> seps_only(src, (#[trigger] acc[k]).sep_start as int, acc[k].name_start as int),
        parse_attrs(src, start, i, acc) is Ok,
    ensures
        ({
            let (attrs, ts, close, sc) = parse_attrs(src, start, i, acc)->Ok_0;
            &&& spans_ok(src, name_end, attrs, ts)
            &&& (attrs.len() == 0 ==> ts == name_end)
            &&& (attrs.len() > 0 ==> ts == attrs.last().end)
            &&& forall|k: int|
                0 <= k < attrs.len() ==> seps_only(
                    src,
                    (#[trigger] attrs[k]).sep_start as int,
                    attrs[k].name_start as int,
                )
            &&& i <= ts <= close < src.len()
            &&& seps_only(src, ts, close)
            &&& (!sc ==> src[close] == '>')
            &&& (sc ==> src[close] == '/' && close + 1 < src.len() && src[close + 1] == '>')
        }),
    decreases src.len() - i,
{
    let j = sep_end(src, i);
    lemma_sep_end(src, i);
    lemma_sep_end_seps(src, i);
    lemma_parse_attrs_stop(src, start, i, acc, j);
    if j < src.len() && src[j] != '>' && src[j] != '/' {
        let ne = attr_name_end(src, j, j, 0);
        lemma_attr_name_end(src, j, j + 1, 0);
        lemma_attr_name_end(src, j, j + 1, 1);
        assert(ne > j);
        lemma_attr_value_bounds(src, start, j, ne);
        let (end, value) = attr_value(src, start, j, ne)->Ok_0;
        assert(end > i && end <= src.len());
        lemma_parse_attrs_step(src, start, i, acc, j);
        let span = AttrSpan {
            sep_start: i as usize,
            name_start: j as usize,
            name_end: ne as usize,
            end: end as usize,
            value,
        };
        lemma_spans_push(src, name_end, acc, span, i);
        let acc2 = acc.push(span);
        assert forall|k: int|
            0 <= k < acc2.len() implies seps_only(src, (#[trigger] acc2[k]).sep_start as int, acc2[k].name_start as int) by {
            if k < acc.len() {
                assert(acc2[k] == acc[k]);
            }
        }
        lemma_parse_attrs_ok(src, start, name_end, end, acc2);
    }
}

/// The facts [`spans_ok`] gives about attribute `k`.
proof fn lemma_span_at(src: Seq<char>, name_end: int, attrs: Seq<AttrSpan>, upto: int, k: int)
    requires
        spans_ok(src, name_end, attrs, upto),
        0 <= k < attrs.len(),
    ensures
        name_end <= attrs[k].sep_start <= attrs[k].name_start < attrs[k].name_end <= attrs[k].end
            <= upto <= src.len(),
        k > 0 ==> attrs[k - 1].end == attrs[k].sep_start,
        k == 0 ==> attrs[k].sep_start == name_end,
{
    reveal(spans_ok);
    let a = attrs[k];
}

proof fn lemma_attrs_source(src: Seq<char>, name_end: int, attrs: Seq<AttrSpan>, upto: int, k: int)
    requires
        spans_ok(src, name_end, attrs, upto),
        0 <= name_end <= src.len(),
        0 <= k <= attrs.len(),
    ensures
        src.subrange(name_end, if k == 0 { name_end } else { attrs[k - 1].end as int }) == attrs_source(
            src,
            attrs,
            k,
        ),
    decreases k,
{
    if k > 0 {
        lemma_span_at(src, name_end, attrs, upto, k - 1);
        if k > 1 {
            lemma_span_at(src, name_end, attrs, upto, k - 2);
        }
        lemma_attrs_source(src, name_end, attrs, upto, k - 1);
        let a = attrs[k - 1];
        let before = if k - 1 == 0 { name_end } else { attrs[k - 2].end as int };
        assert(before == a.sep_start as int);
        assert(src.subrange(name_end, a.end as int) =~= src.subrange(name_end, before) + attr_sep(src, a)
            + src.subrange(a.name_start as int, a.name_end as int) + attr_rest(src, a));
    }
}

/// A tokenized start tag reads back as its source: `<`, the name, each
/// attribute after its separator, the trailing text and `>` or `/>`. Every
/// attribute name is non-empty, and separators and the trailing text hold
/// only ASCII whitespace and `/`.
pub proof fn lemma_start_tag_round_trip(src: Seq<char>, start: int)
    requires
        src.len() <= usize::MAX,
        0 <= start,
        start + 1 < src.len(),
        src[start] == '<',
        is_alpha(src[start + 1]),
        spec_parse_start_tag(src, start) is Ok,
    ensures
        ({
            let t = spec_parse_start_tag(src, start)->Ok_0;
            &&& t.start == start
            &&& tag_ok(src, t)
            &&& forall|k: int|
                0 <= k < t.attrs.len() ==> (#[trigger] t.attrs[k]).name_start < t.attrs[k].name_end
                    && seps_only(src, t.attrs[k].sep_start as int, t.attrs[k].name_start as int)
            &&& seps_only(src, t.trailing_start, t.close)
            &&& (t.self_closing ==> src[t.close + 1] == '>')
            &&& src.subrange(t.start, t.end) == seq!['<'] + tag_name(src, t) + attrs_source(
                src,
                t.attrs,
                t.attrs.len() as int,
            ) + src.subrange(t.trailing_start, t.close) + if t.self_closing {
                seq!['/', '>']
            } else {
                seq!['>']
            }
        }),
{
    let ne = name_end_from(src, start + 1);
    lemma_name_end_from(src, start + 2);
    assert(ne > start + 1);
    assert(spans_ok(src, ne, seq![], ne)) by {
        reveal(spans_ok);
    }
    lemma_parse_attrs_ok(src, start, ne, ne, seq![]);
    let t = spec_parse_start_tag(src, start)->Ok_0;
    assert forall|k: int| 0 <= k < t.attrs.len() implies (#[trigger] t.attrs[k]).name_start
        < t.attrs[k].name_end by {
        lemma_span_at(src, ne, t.attrs, t.trailing_start, k);
    }
    lemma_attrs_source(src, ne, t.attrs, t.trailing_start, t.attrs.len() as int);
    assert(src.subrange(t.start, t.end) =~= seq!['<'] + tag_name(src, t) + src.subrange(ne, t.trailing_start)
        + src.subrange(t.trailing_start, t.close) + src.subrange(t.close, t.end));
    if t.self_closing {
        assert(src.subrange(t.close, t.end) =~= seq!['/', '>']);
    } else {
        assert(src.subrange(t.close, t.end) =~= seq!['>']);
    }
}


/// A `<style>` whose `lang` is `css`, `postcss` or `pcss`, in any case, is
/// formatted exactly like one without a `lang` attribute.
pub proof fn lemma_css_lang_is_default(src: Seq<char>, profile: Profile, st: ScanState, lang: Seq<char>)
    requires
        lower_seq(lang) == "css"@ || lower_seq(lang) == "postcss"@ || lower_seq(lang) == "pcss"@,
    ensures
        spec_raw_text(src, profile, st, "style"@, Some(lower_seq(lang))) == spec_raw_text(
            src,
            profile,
            st,
            "style"@,
            None,
        ),
{
}


proof fn lemma_not_at(src: Seq<char>, p: int, lit: Seq<char>, k: int)
    requires
        0 <= k < lit.len(),
        0 <= p,
        p + k < src.len(),
        src[p + k] != lit[k],
    ensures
        !matches_at(src, p, lit),
{
    if matches_at(src, p, lit) {
        assert(src.subrange(p, p + lit.len())[k] == src[p + k]);
    }
}

/// In a Vue template, a nested `<template>` deepens the nesting and its
/// `</template>` only closes it: the scan of the enclosing block ends only at
/// a `</template>` (in any case) met at depth 0. A `<template>` start tag
/// that does not close its element takes the scan one level deeper; an end
/// tag `</template>` at depth `d > 0` goes back to `d - 1` and scanning goes
/// on past it.
pub proof fn lemma_nested_template(src: Seq<char>, profile: Profile, vue: bool, st: ScanState, depth: nat)
    requires
        0 <= st.pos,
        st.pos + 1 < src.len(),
        src[st.pos] == '<',
    ensures
        is_alpha(src[st.pos + 1]) ==> (spec_start_tag(src, profile, vue, st, true) matches Ok(
            (st2, t, closed),
        ) ==> (!closed && lower_seq(tag_name(src, t)) == "template"@ ==> markup_step(
            src,
            profile,
            vue,
            st,
            true,
            depth,
        ) == Ok::<MarkupStep, FormatErrorView>(MarkupStep::Next(st2, depth + 1)))),
        src[st.pos + 1] == '/' && lower_seq(src.subrange(st.pos + 2, name_end_from(src, st.pos + 2)))
            == "template"@ ==> {
            &&& depth == 0 ==> markup_step(src, profile, vue, st, true, depth) == Ok::<
                MarkupStep,
                FormatErrorView,
            >(MarkupStep::Exit(st))
            &&& depth > 0 ==> markup_step(src, profile, vue, st, true, depth) == Ok::<
                MarkupStep,
                FormatErrorView,
            >(MarkupStep::Next(at_pos(st, skip_past(src, st.pos, ">"@)), (depth - 1) as nat))
        },
{
    reveal_strlit("{{");
    reveal_strlit("{");
    reveal_strlit("<!--");
    reveal_strlit("<!");
    reveal_strlit("<?");
    reveal_strlit("</");
    reveal_strlit("template");
    let p = st.pos;
    lemma_not_at(src, p, "{{"@, 0);
    lemma_not_at(src, p, "{"@, 0);
    if is_alpha(src[p + 1]) {
        lemma_not_at(src, p, "<!--"@, 1);
        lemma_not_at(src, p, "<!"@, 1);
        lemma_not_at(src, p, "<?"@, 1);
        lemma_not_at(src, p, "</"@, 1);
    }
    if src[p + 1] == '/' {
        lemma_not_at(src, p, "<!--"@, 1);
        lemma_not_at(src, p, "<!"@, 1);
        lemma_not_at(src, p, "<?"@, 1);
        assert(src.subrange(p, p + 2) =~= "</"@);
        assert(lower_seq("template"@) =~= "template"@);
    }
}

} // verus!
