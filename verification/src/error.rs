//! Errors, and the (line, column) positions they report.

use vstd::prelude::*;

use crate::text::{sat, sat_add, utf8_len, utf8_width, utf8_width_exec};

verus! {

/// `yaml_serde::Error`, carried through unchanged.
#[verifier::external_type_specification]
#[verifier::external_body]
pub struct ExYamlError(yaml_serde::Error);

/// Errors raised while formatting a document.
#[derive(Debug)]
pub enum FormatError {
    UnterminatedTag { line: usize, column: usize },
    UnterminatedAttributeValue { line: usize, column: usize },
    Stylesheet { line: usize, column: usize, message: String },
}

/// The content of a [`FormatError`].
pub enum FormatErrorView {
    UnterminatedTag { line: int, column: int },
    UnterminatedAttributeValue { line: int, column: int },
    Stylesheet { line: int, column: int, message: Seq<char> },
}

impl View for FormatError {
    type V = FormatErrorView;

    open spec fn view(&self) -> FormatErrorView {
        match self {
            FormatError::UnterminatedTag { line, column } => FormatErrorView::UnterminatedTag {
                line: *line as int,
                column: *column as int,
            },
            FormatError::UnterminatedAttributeValue {
                line,
                column,
            } => FormatErrorView::UnterminatedAttributeValue {
                line: *line as int,
                column: *column as int,
            },
            FormatError::Stylesheet { line, column, message } => FormatErrorView::Stylesheet {
                line: *line as int,
                column: *column as int,
                message: message@,
            },
        }
    }
}

/// Errors raised while loading or validating a profile.
#[derive(Debug)]
pub enum ProfileError {
    Yaml(yaml_serde::Error),
    SchemaVersion(u32),
    Fallback(usize),
    EmptyName,
    DuplicateGroup(String),
    EmptyGroup(String),
    Pattern { group: String, pattern: String },
    MalvaOption(String),
}

/// The content of a [`ProfileError`]; a YAML error is known by its kind only.
pub enum ProfileErrorView {
    Yaml,
    SchemaVersion(u32),
    Fallback(nat),
    EmptyName,
    DuplicateGroup(Seq<char>),
    EmptyGroup(Seq<char>),
    Pattern { group: Seq<char>, pattern: Seq<char> },
    MalvaOption(Seq<char>),
}

impl View for ProfileError {
    type V = ProfileErrorView;

    open spec fn view(&self) -> ProfileErrorView {
        match self {
            ProfileError::Yaml(_) => ProfileErrorView::Yaml,
            ProfileError::SchemaVersion(v) => ProfileErrorView::SchemaVersion(*v),
            ProfileError::Fallback(n) => ProfileErrorView::Fallback(*n as nat),
            ProfileError::EmptyName => ProfileErrorView::EmptyName,
            ProfileError::DuplicateGroup(g) => ProfileErrorView::DuplicateGroup(g@),
            ProfileError::EmptyGroup(g) => ProfileErrorView::EmptyGroup(g@),
            ProfileError::Pattern { group, pattern } => ProfileErrorView::Pattern {
                group: group@,
                pattern: pattern@,
            },
            ProfileError::MalvaOption(k) => ProfileErrorView::MalvaOption(k@),
        }
    }
}

/// Number of `\n` in `s`.
pub open spec fn count_newlines(s: Seq<char>) -> nat
    decreases s.len(),
{
    if s.len() == 0 {
        0
    } else {
        count_newlines(s.drop_last()) + if s.last() == '\n' {
            1nat
        } else {
            0nat
        }
    }
}

/// The part of `s` after its last `\n` (all of `s` when there is none).
pub open spec fn last_line(s: Seq<char>) -> Seq<char>
    decreases s.len(),
{
    if s.len() == 0 {
        s
    } else if s.last() == '\n' {
        seq![]
    } else {
        last_line(s.drop_last()).push(s.last())
    }
}

/// 1-based line of the character offset `offset` in `src`.
pub open spec fn spec_line(src: Seq<char>, offset: int) -> int {
    let before = src.take(if offset < src.len() { offset } else { src.len() as int });
    sat(count_newlines(before) + 1int)
}

/// 1-based column, counted in UTF-8 bytes, of the character offset `offset` in `src`.
pub open spec fn spec_column(src: Seq<char>, offset: int) -> int {
    let before = src.take(if offset < src.len() { offset } else { src.len() as int });
    sat(utf8_len(last_line(before)) + 1int)
}

/// Converts a character offset into a 1-based (line, column) pair, the column
/// counted in bytes as in the UTF-8 text.
pub fn line_col(src: &[char], offset: usize) -> (r: (usize, usize))
    ensures
        r.0 == spec_line(src@, offset as int),
        r.1 == spec_column(src@, offset as int),
{
    let end = if offset < src.len() {
        offset
    } else {
        src.len()
    };
    let mut lines: usize = 0;
    let mut width: usize = 0;
    let mut i: usize = 0;
    while i < end
        invariant
            i <= end <= src.len(),
            lines == sat(count_newlines(src@.take(i as int)) as int),
            width == sat(utf8_len(last_line(src@.take(i as int))) as int),
        decreases end - i,
    {
        let ghost t = src@.take(i + 1);
        assert(t.drop_last() == src@.take(i as int));
        assert(t.last() == src@[i as int]);
        if src[i] == '\n' {
            lines = sat_add(lines, 1);
            width = 0;
        } else {
            proof {
                let l = last_line(src@.take(i as int));
                assert(last_line(t) == l.push(src@[i as int]));
                assert(l.push(src@[i as int]).drop_last() == l);
            }
            width = sat_add(width, utf8_width_exec(src[i]));
        }
        i += 1;
    }
    (sat_add(lines, 1), sat_add(width, 1))
}

} // verus!
