use annealer::markup::{line_indent, parse_start_tag, render, Closing};
use annealer::order::lex_less_exec;
use annealer::profile::{compile_pattern, malva_options, specificity, Pattern};
use annealer::stylesheet::{split_lines_exec, StyleLang};
use annealer::text::{find_exec, find_ic_exec, skip_past_exec};
use annealer::{FormatError, Profile, ProfileError};

fn chars(s: &str) -> Vec<char> {
    s.chars().collect()
}

fn text(v: &[char]) -> String {
    v.iter().collect()
}

#[test]
fn counts_builtin_groups() {
    assert_eq!(Profile::html().group_count(), 14);
    assert_eq!(Profile::vue().group_count(), 23);
    assert_eq!(Profile::html().group_names()[6], "other");
    assert_eq!(Profile::vue().group_names()[14], "other");
}

#[test]
fn tokenizes_a_start_tag() {
    let src = chars("<a href=\"/\"  title='t' hidden/>rest");
    let tag = parse_start_tag(&src, 0).unwrap();
    assert_eq!(tag.start, 0);
    assert_eq!(tag.name_end, 2);
    assert_eq!(tag.attrs.len(), 3);
    assert!(tag.self_closing);
    assert_eq!(tag.end, 31);
    let first = tag.attrs[0];
    assert_eq!(text(&src[first.name_start..first.name_end]), "href");
    let value = first.value.unwrap();
    assert_eq!(text(&src[value.0..value.1]), "/");
    let second = tag.attrs[1];
    assert_eq!(text(&src[second.sep_start..second.name_start]), "  ");
    assert!(tag.attrs[2].value.is_none());
}

#[test]
fn reports_unterminated_tags_and_values() {
    assert!(matches!(
        parse_start_tag(&chars("<a b"), 0),
        Err(FormatError::UnterminatedTag { line: 1, column: 1 })
    ));
    assert!(matches!(
        parse_start_tag(&chars("x\n <a b=\"c"), 3),
        Err(FormatError::UnterminatedAttributeValue { line: 2, column: 5 })
    ));
    assert!(matches!(
        parse_start_tag(&chars("<a b="), 0),
        Err(FormatError::UnterminatedTag { line: 1, column: 1 })
    ));
}

#[test]
fn renders_each_closing() {
    let src = chars("<br title=\"t\" id=\"i\">");
    let tag = parse_start_tag(&src, 0).unwrap();
    let html = Profile::html();
    assert_eq!(text(&render(&src, &tag, &html, Closing::Keep)), "<br id=\"i\" title=\"t\">");
    assert_eq!(text(&render(&src, &tag, &html, Closing::SelfClose)), "<br id=\"i\" title=\"t\" />");
    let closed = chars("<x-y a=\"1\"/>");
    let tag = parse_start_tag(&closed, 0).unwrap();
    assert_eq!(text(&render(&closed, &tag, &html, Closing::OpenOnly)), "<x-y a=\"1\">");
    assert_eq!(text(&render(&closed, &tag, &html, Closing::Expand)), "<x-y a=\"1\"></x-y>");
}

#[test]
fn finds_line_indentation() {
    let src = chars("a\n  \t<b>");
    assert_eq!(text(&line_indent(&src, 5)), "  \t");
    assert_eq!(text(&line_indent(&src, 1)), "");
}

#[test]
fn compiles_patterns() {
    match compile_pattern(&chars("g"), &chars("Aria-*")).unwrap() {
        Pattern::Prefix(p) => assert_eq!(text(&p), "aria-"),
        other => panic!("unexpected: {other:?}"),
    }
    match compile_pattern(&chars("g"), &chars("ID")).unwrap() {
        Pattern::Exact(p) => assert_eq!(text(&p), "id"),
        other => panic!("unexpected: {other:?}"),
    }
    match compile_pattern(&chars("g"), &chars("*X")) {
        Err(ProfileError::Pattern { group, pattern }) => {
            assert_eq!(group, "g");
            assert_eq!(pattern, "*x");
        }
        other => panic!("unexpected: {other:?}"),
    }
}

#[test]
fn scores_patterns() {
    let exact = Pattern::Exact(chars("id"));
    let prefix = Pattern::Prefix(chars("aria-"));
    assert_eq!(specificity(&exact, &chars("id")), Some(usize::MAX));
    assert_eq!(specificity(&exact, &chars("idx")), None);
    assert_eq!(specificity(&prefix, &chars("aria-label")), Some(5));
    assert_eq!(specificity(&prefix, &chars("role")), None);
}

#[test]
fn lists_malva_options() {
    let options = malva_options();
    assert_eq!(options.len(), 35);
    assert!(options.contains(&"printWidth"));
    assert!(!options.contains(&"declarationOrder"));
}

#[test]
fn maps_style_languages() {
    assert_eq!(StyleLang::from_lang(None), Some(StyleLang::Css));
    assert_eq!(StyleLang::from_lang(Some(&chars("postcss"))), Some(StyleLang::Css));
    assert_eq!(StyleLang::from_lang(Some(&chars("scss"))), Some(StyleLang::Scss));
    assert_eq!(StyleLang::from_lang(Some(&chars("less"))), None);
}

#[test]
fn splits_lines_like_str_lines() {
    let lines: Vec<String> = split_lines_exec(&chars("a\r\nb\n\nc")).iter().map(|l| text(l)).collect();
    assert_eq!(lines, vec!["a", "b", "", "c"]);
    assert!(split_lines_exec(&chars("")).is_empty());
    assert_eq!(split_lines_exec(&chars("x\n")).len(), 1);
}

#[test]
fn compares_names_lexicographically() {
    assert!(lex_less_exec(&chars("data-a"), &chars("data-b")));
    assert!(lex_less_exec(&chars("data"), &chars("data-a")));
    assert!(!lex_less_exec(&chars("b"), &chars("a")));
    assert!(!lex_less_exec(&chars("a"), &chars("a")));
}

#[test]
fn builtin_group_names_are_distinct() {
    for profile in [Profile::html(), Profile::vue()] {
        let mut names = profile.group_names();
        let count = names.len();
        names.sort();
        names.dedup();
        assert_eq!(names.len(), count);
        assert!(names.iter().all(|name| !name.is_empty()));
    }
}

#[test]
fn start_tags_read_back_as_their_source() {
    let src = chars("x <my-el  a=\"1\"\t/ b='2' c=3 d / >y");
    let tag = parse_start_tag(&src, 2).unwrap();
    let mut back = String::from("<");
    back.push_str(&text(&src[tag.start + 1..tag.name_end]));
    for a in &tag.attrs {
        let sep = text(&src[a.sep_start..a.name_start]);
        assert!(sep.chars().all(|c| c.is_ascii_whitespace() || c == '/'));
        assert!(a.name_start < a.name_end);
        back.push_str(&sep);
        back.push_str(&text(&src[a.name_start..a.end]));
    }
    back.push_str(&text(&src[tag.trailing_start..tag.close]));
    back.push_str(if tag.self_closing { "/>" } else { ">" });
    assert_eq!(back, text(&src[tag.start..tag.end]));
    assert_eq!(tag.attrs.len(), 4);
    assert!(!tag.self_closing);
}

#[test]
fn searches_from_any_start() {
    let hay = chars("<b></SCRIPT>");
    assert_eq!(find_ic_exec(&hay, 0, &chars("</script")), Some(3));
    assert_eq!(find_ic_exec(&hay, 4, &chars("</script")), None);
    assert_eq!(find_ic_exec(&hay, 40, &chars("</script")), None);
    assert_eq!(find_exec(&hay, 40, &chars("b")), None);
    assert_eq!(skip_past_exec(&hay, 40, &chars("b")), hay.len());
    assert_eq!(skip_past_exec(&hay, 0, &chars("b>")), 3);
}
