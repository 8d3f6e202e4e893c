//! Stylesheet property ordering, delegated to `malva`.

use vstd::prelude::*;

use crate::text::{
    all_unicode_ws, all_unicode_ws_exec, chars_to_string, eq_str, find_exec, find_from,
    indent_len, indent_len_exec, is_unicode_ws, is_unicode_ws_exec, lemma_find_from_bounds,
    matches_at_exec, push_all, slice_vec, starts_with, to_chars,
};

verus! {

/// `malva::config::FormatOptions`, built only by [`build_stylesheet`].
#[verifier::external_type_specification]
#[verifier::external_body]
pub struct ExFormatOptions(malva::config::FormatOptions);

/// `Clone` of `malva::config::FormatOptions` (derived there); nothing is claimed of the copy.
pub assume_specification[ <malva::config::FormatOptions as std::clone::Clone>::clone ](
    options: &malva::config::FormatOptions,
) -> malva::config::FormatOptions;

/// Declaration order applied by `malva` (`declarationOrder`).
#[derive(Clone, Copy, Debug, PartialEq, Eq, Structural)]
pub enum DeclarationSort {
    Alphabetical,
    Smacss,
    Concentric,
}

/// How `malva` groups declarations before ordering them (`declarationOrderGroupBy`).
#[derive(Clone, Copy, Debug, PartialEq, Eq, Structural)]
pub enum DeclarationGrouping {
    NonDeclaration,
    NonDeclarationAndEmptyLine,
}

/// Stylesheet syntaxes annealer currently formats. Less and Sass (indented
/// syntax) are deferred.
#[derive(Clone, Copy, Debug, PartialEq, Eq, Structural)]
pub enum StyleLang {
    Css,
    Scss,
}

/// The stylesheet settings of a profile, as plain values: the two
/// annealer-owned keys and the `malva:` passthrough mapping as YAML text.
#[derive(Clone, Debug)]
pub struct StyleSource {
    pub declaration_order: Option<DeclarationSort>,
    pub declaration_order_group_by: Option<DeclarationGrouping>,
    pub malva_yaml: Option<String>,
}

/// `malva_yaml` as a sequence of characters.
pub open spec fn yaml_view(source: StyleSource) -> Option<Seq<char>> {
    match source.malva_yaml {
        Some(y) => Some(y@),
        None => None,
    }
}

/// Validated stylesheet settings: the plain settings and the `malva`
/// options built from them. Only [`build_stylesheet`] makes one, so the
/// options always are those of the settings.
#[derive(Debug)]
pub struct Stylesheet {
    source: StyleSource,
    options: malva::config::FormatOptions,
}

impl Stylesheet {
    pub closed spec fn spec_source(&self) -> StyleSource {
        self.source
    }
}

impl Clone for Stylesheet {
    fn clone(&self) -> (r: Self)
        ensures
            r.spec_source() == self.spec_source(),
    {
        let source = StyleSource {
            declaration_order: self.source.declaration_order,
            declaration_order_group_by: self.source.declaration_order_group_by,
            malva_yaml: match &self.source.malva_yaml {
                Some(y) => Some(y.clone()),
                None => None,
            },
        };
        Stylesheet { source, options: self.options.clone() }
    }
}

/// Whether `malva` accepts the YAML mapping `yaml` as its options
/// (`yaml_serde::from_str::<malva::config::FormatOptions>`).
pub uninterp spec fn malva_accepts(yaml: Seq<char>) -> bool;

/// What `malva::format_text` returns for `input` in `lang` with the options
/// built from these settings: the formatted text, or the error's message.
/// Two outside steps stand behind this one name, because the options are
/// opaque: `yaml_serde::from_str::<FormatOptions>` on `yaml` (malva's
/// defaults when there is none) with `order` and `group_by` set on top, then
/// `malva::format_text`. It holds of a [`Stylesheet`] because only
/// [`build_stylesheet`] and `Clone` make one, so its options are always those
/// of its settings.
pub uninterp spec fn malva_format(
    input: Seq<char>,
    lang: StyleLang,
    order: Option<DeclarationSort>,
    group_by: Option<DeclarationGrouping>,
    yaml: Option<Seq<char>>,
) -> Result<Seq<char>, Seq<char>>;

/// `yaml_serde::from_str::<malva::config::FormatOptions>` on the `malva:`
/// mapping, or `FormatOptions::default()` when there is none. The contract
/// claims that parsing fails exactly when `malva` rejects the mapping, and
/// that the defaults need no parsing.
#[verifier::external_body]
fn parse_malva_options(yaml: &Option<String>) -> (r: Result<
    malva::config::FormatOptions,
    yaml_serde::Error,
>)
    ensures
        r is Ok <==> (match yaml {
            Some(y) => malva_accepts(y@),
            None => true,
        }),
{
    match yaml {
        None => Ok(malva::config::FormatOptions::default()),
        Some(y) => yaml_serde::from_str(y),
    }
}

/// Sets `options.language.declaration_order` (malva's `declarationOrder`),
/// variant for variant. Nothing is claimed: the options are opaque here.
#[verifier::external_body]
fn set_declaration_order(options: &mut malva::config::FormatOptions, order: Option<DeclarationSort>) {
    options.language.declaration_order = match order {
        None => None,
        Some(DeclarationSort::Alphabetical) => Some(malva::config::DeclarationOrder::Alphabetical),
        Some(DeclarationSort::Smacss) => Some(malva::config::DeclarationOrder::Smacss),
        Some(DeclarationSort::Concentric) => Some(malva::config::DeclarationOrder::Concentric),
    };
}

/// Sets `options.language.declaration_order_group_by` (malva's
/// `declarationOrderGroupBy`), variant for variant. Nothing is claimed: the
/// options are opaque here.
#[verifier::external_body]
fn set_group_by(options: &mut malva::config::FormatOptions, group_by: DeclarationGrouping) {
    options.language.declaration_order_group_by = match group_by {
        DeclarationGrouping::NonDeclaration => {
            malva::config::DeclarationOrderGroupBy::NonDeclaration
        },
        DeclarationGrouping::NonDeclarationAndEmptyLine => {
            malva::config::DeclarationOrderGroupBy::NonDeclarationAndEmptyLine
        },
    };
}

/// Builds `malva` options from plain settings: the passthrough mapping (or
/// malva's defaults), then the two annealer-owned keys on top. Fails exactly
/// when `malva` rejects the mapping; the result remembers its settings.
pub(crate) fn build_stylesheet(source: &StyleSource) -> (r: Result<Stylesheet, yaml_serde::Error>)
    ensures
        r is Ok <==> (match yaml_view(*source) {
            Some(y) => malva_accepts(y),
            None => true,
        }),
        r matches Ok(s) ==> s.spec_source() == *source,
{
    let mut options = match parse_malva_options(&source.malva_yaml) {
        Ok(o) => o,
        Err(e) => {
            return Err(e);
        },
    };
    set_declaration_order(&mut options, source.declaration_order);
    if let Some(group_by) = source.declaration_order_group_by {
        set_group_by(&mut options, group_by);
    }
    let copy = StyleSource {
        declaration_order: source.declaration_order,
        declaration_order_group_by: source.declaration_order_group_by,
        malva_yaml: match &source.malva_yaml {
            Some(y) => Some(y.clone()),
            None => None,
        },
    };
    Ok(Stylesheet { source: copy, options })
}

/// Formats a whole stylesheet with `malva::format_text`; an error becomes its
/// message. The contract claims the result is [`malva_format`] of the input
/// and the settings the options were built from.
#[verifier::external_body]
pub(crate) fn malva_format_text(input: &str, lang: StyleLang, sheet: &Stylesheet) -> (r: Result<
    String,
    String,
>)
    ensures
        (match r {
            Ok(s) => Ok::<Seq<char>, Seq<char>>(s@),
            Err(m) => Err(m@),
        }) == malva_format(
            input@,
            lang,
            sheet.spec_source().declaration_order,
            sheet.spec_source().declaration_order_group_by,
            yaml_view(sheet.spec_source()),
        ),
{
    let syntax = match lang {
        StyleLang::Css => malva::Syntax::Css,
        StyleLang::Scss => malva::Syntax::Scss,
    };
    malva::format_text(input, syntax, &sheet.options).map_err(|error| error.to_string())
}


/// `StyleLang` for a `<style lang="…">` value (already lowercased); no
/// attribute means CSS; other languages are left alone.
pub open spec fn spec_from_lang(lang: Option<Seq<char>>) -> Option<StyleLang> {
    match lang {
        None => Some(StyleLang::Css),
        Some(l) => if l == "css"@ || l == "postcss"@ || l == "pcss"@ {
            Some(StyleLang::Css)
        } else if l == "scss"@ {
            Some(StyleLang::Scss)
        } else {
            None
        },
    }
}

impl StyleLang {
    /// Maps a `<style lang="…">` value; `None` (no attribute) means CSS.
    pub fn from_lang(lang: Option<&[char]>) -> (r: Option<StyleLang>)
        ensures
            r == spec_from_lang(
                match lang {
                    Some(l) => Some(l@),
                    None => None,
                },
            ),
    {
        match lang {
            None => Some(StyleLang::Css),
            Some(l) => if eq_str(l, "css") || eq_str(l, "postcss") || eq_str(l, "pcss") {
                Some(StyleLang::Css)
            } else if eq_str(l, "scss") {
                Some(StyleLang::Scss)
            } else {
                None
            },
        }
    }
}

/// `line` without one trailing `\r`.
pub open spec fn strip_cr(line: Seq<char>) -> Seq<char> {
    if line.len() > 0 && line.last() == '\r' {
        line.drop_last()
    } else {
        line
    }
}

/// `str::lines`: split at `\n`, a `\r` before it dropped; no empty line after a final `\n`.
pub open spec fn split_lines(s: Seq<char>) -> Seq<Seq<char>>
    decreases s.len(),
{
    match find_from(s, 0, seq!['\n']) {
        None => if s.len() == 0 {
            seq![]
        } else {
            seq![s]
        },
        Some(i) => if 0 <= i < s.len() {
            seq![strip_cr(s.take(i))] + split_lines(s.skip(i + 1))
        } else {
            seq![]
        },
    }
}

/// Leading spaces and tabs of `line`.
pub open spec fn leading_indent(line: Seq<char>) -> Seq<char> {
    line.take(indent_len(line, 0))
}

/// Shortest indentation among the non-blank lines `lines[k..]`, the first
/// among equals, starting from `best`.
pub open spec fn min_indent(lines: Seq<Seq<char>>, k: int, best: Option<Seq<char>>) -> Option<
    Seq<char>,
>
    decreases lines.len() - k,
{
    if k < 0 || k >= lines.len() {
        best
    } else {
        let line = lines[k];
        let next = if all_unicode_ws(line) {
            best
        } else {
            match best {
                None => Some(leading_indent(line)),
                Some(b) => if leading_indent(line).len() < b.len() {
                    Some(leading_indent(line))
                } else {
                    best
                },
            }
        };
        min_indent(lines, k + 1, next)
    }
}

/// Number of leading Unicode whitespace characters of `s` from `i` on.
pub open spec fn unicode_ws_end(s: Seq<char>, i: int) -> int
    decreases s.len() - i,
{
    if 0 <= i < s.len() && is_unicode_ws(s[i]) {
        unicode_ws_end(s, i + 1)
    } else {
        i
    }
}

/// A line with the common indentation `inner` removed, or, when it does not
/// start with it, all of its leading whitespace.
pub open spec fn dedent_line(line: Seq<char>, inner: Seq<char>) -> Seq<char> {
    if starts_with(line, inner) {
        line.skip(inner.len() as int)
    } else {
        line.skip(unicode_ws_end(line, 0))
    }
}

/// The first `k` lines dedented by `inner`, joined with `\n`.
pub open spec fn dedent_join(lines: Seq<Seq<char>>, inner: Seq<char>, k: int) -> Seq<char>
    decreases k,
{
    if k <= 0 {
        seq![]
    } else if k == 1 {
        dedent_line(lines[0], inner)
    } else {
        dedent_join(lines, inner, k - 1) + seq!['\n'] + dedent_line(lines[k - 1], inner)
    }
}

/// The indentation of a style block's content: that of its least indented
/// line when the content starts on the line after `<style>`, else `base_indent`.
pub open spec fn inner_indent(content: Seq<char>, base_indent: Seq<char>) -> Seq<char> {
    let i = indent_len(content, 0);
    if i < content.len() && (content[i] == '\n' || content[i] == '\r') {
        match min_indent(split_lines(content), 0, None) {
            Some(b) => b,
            None => seq![],
        }
    } else {
        base_indent
    }
}

/// `s` holds `\r\n`.
pub open spec fn holds_crlf(s: Seq<char>) -> bool {
    exists|i: int| 0 <= i && i + 1 < s.len() && s[i] == '\r' && #[trigger] s[i + 1] == '\n'
}

/// The first `k` formatted lines, each indented by `inner` unless empty, each followed by `newline`.
pub open spec fn indent_lines(lines: Seq<Seq<char>>, inner: Seq<char>, newline: Seq<char>, k: int) -> Seq<char>
    decreases k,
{
    if k <= 0 {
        seq![]
    } else {
        indent_lines(lines, inner, newline, k - 1) + (if lines[k - 1].len() == 0 {
            seq![]
        } else {
            inner + lines[k - 1]
        }) + newline
    }
}

/// What `malva` gets of the content of a `<style>` element: its lines with
/// the content's own indentation removed.
pub open spec fn embedded_input(content: Seq<char>, base_indent: Seq<char>) -> Seq<char> {
    let lines = split_lines(content);
    dedent_join(lines, inner_indent(content, base_indent), lines.len() as int)
}

/// The line break a `<style>` element's content uses: `\r\n` if it holds one.
pub open spec fn content_newline(content: Seq<char>) -> Seq<char> {
    if holds_crlf(content) {
        seq!['\r', '\n']
    } else {
        seq!['\n']
    }
}

/// What `malva`'s output becomes inside the `<style>` element: on a new line,
/// each non-empty line indented again by the content's own indentation, and
/// followed by a line break and `base_indent` so the closing tag sits on its
/// own line.
pub open spec fn embedded_output(formatted: Seq<char>, content: Seq<char>, base_indent: Seq<char>) -> Seq<char> {
    let newline = content_newline(content);
    let out_lines = split_lines(formatted);
    newline + indent_lines(out_lines, inner_indent(content, base_indent), newline, out_lines.len() as int)
        + base_indent
}

/// The formatted content of a `<style>` element: dedented, formatted by
/// `malva`, indented again; `malva`'s error message when it fails.
pub open spec fn spec_format_embedded(
    content: Seq<char>,
    lang: StyleLang,
    source: StyleSource,
    base_indent: Seq<char>,
) -> Result<Seq<char>, Seq<char>> {
    match malva_format(
        embedded_input(content, base_indent),
        lang,
        source.declaration_order,
        source.declaration_order_group_by,
        yaml_view(source),
    ) {
        Err(m) => Err(m),
        Ok(formatted) => Ok(embedded_output(formatted, content, base_indent)),
    }
}

/// The lines' contents.
pub open spec fn lines_view(v: Seq<Vec<char>>) -> Seq<Seq<char>> {
    v.map_values(|l: Vec<char>| l@)
}

/// `str::lines` on characters.
pub fn split_lines_exec(s: &[char]) -> (r: Vec<Vec<char>>)
    ensures
        lines_view(r@) == split_lines(s@),
{
    let mut out: Vec<Vec<char>> = Vec::new();
    let mut rest: Vec<char> = slice_vec(s, 0, s.len());
    assert(s@.subrange(0, s@.len() as int) == s@);
    let nl = vec!['\n'];
    assert(nl@ == seq!['\n']);
    while rest.len() > 0
        invariant
            nl@ == seq!['\n'],
            lines_view(out@) + split_lines(rest@) == split_lines(s@),
        decreases rest.len(),
    {
        proof {
            lemma_find_from_bounds(rest@, 0, nl@);
        }
        match find_exec(rest.as_slice(), 0, nl.as_slice()) {
            None => {
                let ghost before = out@;
                out.push(rest);
                proof {
                    assert(lines_view(out@) == lines_view(before).push(rest@));
                    assert(split_lines(rest@) == seq![rest@]);
                }
                return out;
            },
            Some(i) => {
                let mut line = slice_vec(rest.as_slice(), 0, i);
                if line.len() > 0 && line[line.len() - 1] == '\r' {
                    line.pop();
                }
                let next = slice_vec(rest.as_slice(), i + 1, rest.len());
                proof {
                    assert(line@ == strip_cr(rest@.take(i as int)));
                    assert(next@ == rest@.skip(i + 1));
                    assert(split_lines(rest@) == seq![line@] + split_lines(next@));
                }
                let ghost before = out@;
                out.push(line);
                proof {
                    assert(lines_view(out@) == lines_view(before).push(line@));
                    assert(lines_view(before).push(line@) + split_lines(next@) == lines_view(before) + (seq![line@] + split_lines(next@)));
                }
                rest = next;
            },
        }
    }
    proof {
        assert(split_lines(rest@) == Seq::<Seq<char>>::empty());
        assert(lines_view(out@) + Seq::<Seq<char>>::empty() == lines_view(out@));
    }
    out
}

fn leading_indent_exec(line: &[char]) -> (r: Vec<char>)
    ensures
        r@ == leading_indent(line@),
{
    let end = indent_len_exec(line, 0);
    slice_vec(line, 0, end)
}

fn unicode_ws_end_exec(s: &[char]) -> (r: usize)
    ensures
        r == unicode_ws_end(s@, 0),
        r <= s.len(),
{
    let mut i: usize = 0;
    while i < s.len() && is_unicode_ws_exec(s[i])
        invariant
            i <= s.len(),
            unicode_ws_end(s@, i as int) == unicode_ws_end(s@, 0),
        decreases s.len() - i,
    {
        i += 1;
    }
    i
}

fn dedent_line_exec(line: &[char], inner: &[char]) -> (r: Vec<char>)
    ensures
        r@ == dedent_line(line@, inner@),
{
    if matches_at_exec(line, 0, inner) {
        slice_vec(line, inner.len(), line.len())
    } else {
        let w = unicode_ws_end_exec(line);
        slice_vec(line, w, line.len())
    }
}

fn inner_indent_exec(content: &[char], lines: &Vec<Vec<char>>, base_indent: &[char]) -> (r: Vec<char>)
    requires
        lines_view(lines@) == split_lines(content@),
    ensures
        r@ == inner_indent(content@, base_indent@),
{
    let i = indent_len_exec(content, 0);
    if i < content.len() && (content[i] == '\n' || content[i] == '\r') {
        let mut best: Option<Vec<char>> = None;
        let mut k: usize = 0;
        while k < lines.len()
            invariant
                k <= lines.len(),
                lines_view(lines@) == split_lines(content@),
                min_indent(split_lines(content@), k as int, match best {
                    Some(b) => Some(b@),
                    None => None,
                }) == min_indent(split_lines(content@), 0, None),
            decreases lines.len() - k,
        {
            let line = lines[k].as_slice();
            assert(line@ == split_lines(content@)[k as int]);
            if !all_unicode_ws_exec(line, 0, line.len()) {
                let ind = leading_indent_exec(line);
                let replace = match &best {
                    None => true,
                    Some(b) => ind.len() < b.len(),
                };
                if replace {
                    best = Some(ind);
                }
            } else {
                assert(line@.subrange(0, line@.len() as int) == line@);
            }
            proof {
                assert(line@.subrange(0, line@.len() as int) == line@);
            }
            k += 1;
        }
        match best {
            Some(b) => b,
            None => Vec::new(),
        }
    } else {
        slice_vec(base_indent, 0, base_indent.len())
    }
}

/// The text handed to `malva` for the content of a `<style>` element: its
/// lines with the content's own indentation removed.
pub fn prepare_embedded(content: &[char], base_indent: &[char]) -> (r: Vec<char>)
    ensures
        r@ == embedded_input(content@, base_indent@),
{
    let lines = split_lines_exec(content);
    let inner = inner_indent_exec(content, &lines, base_indent);
    let mut dedented: Vec<char> = Vec::new();
    let mut k: usize = 0;
    while k < lines.len()
        invariant
            k <= lines.len(),
            lines_view(lines@) == split_lines(content@),
            inner@ == inner_indent(content@, base_indent@),
            dedented@ == dedent_join(split_lines(content@), inner@, k as int),
        decreases lines.len() - k,
    {
        if k > 0 {
            dedented.push('\n');
        }
        let d = dedent_line_exec(lines[k].as_slice(), inner.as_slice());
        push_all(&mut dedented, d.as_slice());
        assert(lines[k as int]@ == split_lines(content@)[k as int]);
        k += 1;
    }
    proof {
        assert(lines_view(lines@).len() == lines@.len());
    }
    dedented
}

/// `malva`'s output placed back into the `<style>` element whose content was
/// `content`: on a new line, each non-empty line indented by the content's
/// own indentation, the closing tag on its own line at `base_indent`.
pub fn place_embedded(formatted: &[char], content: &[char], base_indent: &[char]) -> (r: Vec<char>)
    ensures
        r@ == embedded_output(formatted@, content@, base_indent@),
{
    let lines = split_lines_exec(content);
    let inner = inner_indent_exec(content, &lines, base_indent);
    let newline: Vec<char> = if has_crlf_chars(content) {
        vec!['\r', '\n']
    } else {
        vec!['\n']
    };
    assert(newline@ == content_newline(content@));
    let out_lines = split_lines_exec(formatted);
    let mut out: Vec<char> = Vec::new();
    push_all(&mut out, newline.as_slice());
    let mut k: usize = 0;
    while k < out_lines.len()
        invariant
            k <= out_lines.len(),
            lines_view(out_lines@) == split_lines(formatted@),
            out@ == newline@ + indent_lines(split_lines(formatted@), inner@, newline@, k as int),
        decreases out_lines.len() - k,
    {
        let line = out_lines[k].as_slice();
        assert(line@ == split_lines(formatted@)[k as int]);
        if line.len() > 0 {
            push_all(&mut out, inner.as_slice());
            push_all(&mut out, line);
        }
        push_all(&mut out, newline.as_slice());
        k += 1;
    }
    push_all(&mut out, base_indent);
    proof {
        assert(lines_view(out_lines@).len() == out_lines@.len());
    }
    out
}

/// Formats the content of a `<style>` element, keeping it indented relative to
/// the tag and putting the closing tag on its own line at `base_indent`.
pub fn format_embedded(content: &[char], lang: StyleLang, sheet: &Stylesheet, base_indent: &[char]) -> (r: Result<
    Vec<char>,
    String,
>)
    ensures
        (match r {
            Ok(v) => Ok::<Seq<char>, Seq<char>>(v@),
            Err(m) => Err(m@),
        }) == spec_format_embedded(content@, lang, sheet.spec_source(), base_indent@),
{
    let dedented = prepare_embedded(content, base_indent);
    let input = chars_to_string(dedented.as_slice());
    match malva_format_text(input.as_str(), lang, sheet) {
        Ok(f) => {
            let formatted = to_chars(f.as_str());
            Ok(place_embedded(formatted.as_slice(), content, base_indent))
        },
        Err(m) => Err(m),
    }
}

/// `s` holds `\r\n`.
pub fn has_crlf_chars(s: &[char]) -> (r: bool)
    ensures
        r == holds_crlf(s@),
{
    let mut i: usize = 0;
    while i < s.len()
        invariant
            i <= s.len(),
            forall|j: int| 0 <= j < i && j + 1 < s.len() ==> !(s@[j] == '\r' && #[trigger] s@[j + 1] == '\n'),
        decreases s.len() - i,
    {
        if i + 1 < s.len() && s[i] == '\r' && s[i + 1] == '\n' {
            return true;
        }
        i += 1;
    }
    false
}

} // verus!
