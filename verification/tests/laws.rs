use std::path::Path;

use annealer::attribute::{key_of, normalize_name, Key};
use annealer::error::line_col;
use annealer::markup::scan;
use annealer::order::attribute_order;
use annealer::profile::{GroupSort, Layout, Normalize, RawGroup, RawProfile};
use annealer::stylesheet::{place_embedded, prepare_embedded};
use annealer::{stylesheet_result, Config, FormatError, Language, Profile};

fn chars(s: &str) -> Vec<char> {
    s.chars().collect()
}

fn keys(names: &[&str]) -> Vec<Key> {
    names.iter().map(|name| key_of(name)).collect()
}

fn raw_group(name: &str, patterns: &[&str], fallback: bool) -> RawGroup {
    RawGroup {
        name: name.to_string(),
        patterns: patterns.iter().map(|p| p.to_string()).collect(),
        sort: GroupSort::Source,
        fallback,
        spread_safe: false,
    }
}

fn profile_of(groups: Vec<RawGroup>) -> Profile {
    Profile::from_raw(RawProfile {
        schema_version: 1,
        name: "test".to_string(),
        description: None,
        normalize: Normalize::default(),
        layout: Layout::default(),
        groups,
        stylesheet: None,
    })
    .unwrap()
}

fn group_name(profile: &Profile, key: &str) -> String {
    let group = profile.classify(&chars(key)).group;
    profile.group_names()[group].clone()
}

#[test]
fn spread_is_a_boundary_for_attributes_that_are_not_spread_safe() {
    // `@click` would go before `id` in the events group order, but the
    // spread `v-bind` at 1 keeps `:title` before it and the rest after it.
    let order = attribute_order(&keys(&[":title", "v-bind", "@click", "id"]), &Profile::vue());
    assert_eq!(order, vec![0, 1, 3, 2]);
}

#[test]
fn spread_safe_attributes_move_before_every_spread() {
    let order = attribute_order(
        &keys(&["title", "v-bind", "v-if", "v-bind", "v-for"]),
        &Profile::vue(),
    );
    assert_eq!(order, vec![4, 2, 0, 1, 3]);
}

#[test]
fn groups_decide_the_order_inside_a_segment() {
    let order = attribute_order(&keys(&["onload", "data-x", "title", "id"]), &Profile::html());
    assert_eq!(order, vec![3, 2, 1, 0]);
}

#[test]
fn clusters_stay_together_with_static_class_first() {
    let order = attribute_order(&keys(&["title", ":class", "id", "class"]), &Profile::html());
    assert_eq!(order, vec![2, 3, 1, 0]);
    let order = attribute_order(&keys(&[":style", "id", "style"]), &Profile::vue());
    assert_eq!(order, vec![1, 0, 2]);
}

#[test]
fn an_ordered_tag_keeps_its_order() {
    let order = attribute_order(&keys(&["id", "class", "title", "data-a", "onclick"]), &Profile::html());
    assert_eq!(order, vec![0, 1, 2, 3, 4]);
}

#[test]
fn most_specific_pattern_wins_and_fallback_catches_the_rest() {
    let profile = profile_of(vec![
        raw_group("directives", &["v-*"], false),
        raw_group("events", &["v-on:*"], false),
        raw_group("clicks", &["v-on:click"], false),
        raw_group("rest", &[], true),
        raw_group("also-directives", &["v-*"], false),
    ]);
    assert_eq!(group_name(&profile, "v-on:click"), "clicks");
    assert_eq!(group_name(&profile, "v-on:input"), "events");
    assert_eq!(group_name(&profile, "v-if"), "directives");
    assert_eq!(group_name(&profile, "title"), "rest");
}

#[test]
fn text_without_tags_is_unchanged() {
    for language in [Language::Html, Language::Vue] {
        let config = Config::for_language(language);
        let text = "plain text, {{ braces }} & entities &amp; é\n";
        assert_eq!(annealer::format(text, &config).unwrap(), text);
    }
}

#[test]
fn only_start_tags_and_style_content_change() {
    let input = "text <!-- <b title=\"t\" id=\"i\"> --> <b title=\"t\" id=\"i\">x</b> tail";
    let output = annealer::format(input, &Config::for_language(Language::Html)).unwrap();
    assert_eq!(output, "text <!-- <b title=\"t\" id=\"i\"> --> <b id=\"i\" title=\"t\">x</b> tail");
}

#[test]
fn default_profiles_are_builtin() {
    for language in [Language::Html, Language::Vue, Language::Css, Language::Scss] {
        let name = language.default_profile();
        assert!(Profile::builtin(name).is_some());
        assert_eq!(Config::for_language(language).profile.name(), name);
    }
    assert_eq!(Language::Vue.default_profile(), "vue");
    assert_eq!(Language::Scss.default_profile(), "html");
}

#[test]
fn infers_language_from_extension_and_path() {
    assert_eq!(Language::from_extension("HTM"), Some(Language::Html));
    assert_eq!(Language::from_extension("scss"), Some(Language::Scss));
    assert_eq!(Language::from_extension("js"), None);
    assert_eq!(Language::from_path(Path::new("src/App.Vue")), Some(Language::Vue));
    assert_eq!(Language::from_path(Path::new("styles/site.css")), Some(Language::Css));
    assert_eq!(Language::from_path(Path::new(".html")), None);
    assert_eq!(Language::from_path(Path::new("README")), None);
    assert_eq!(Language::from_path(Path::new("site/Index.HTM")), Some(Language::Html));
    assert_eq!(Language::from_path(Path::new("App.vue")), Some(Language::Vue));
    assert_eq!(Language::from_path(Path::new("a.less")), None);
    assert_eq!(Language::from_path(Path::new("Makefile")), None);
}

#[test]
fn reports_stylesheet_errors_at_the_start() {
    let error = annealer::format("a { color: red;", &Config::for_language(Language::Css)).unwrap_err();
    assert!(matches!(error, FormatError::Stylesheet { line: 1, column: 1, .. }));
    let embedded = "<p>\n  <style>\n    a { color: red;\n  </style>";
    let error = annealer::format(embedded, &Config::for_language(Language::Html)).unwrap_err();
    assert!(matches!(error, FormatError::Stylesheet { line: 2, column: 10, .. }));
}

#[test]
fn maps_the_stylesheet_outcome() {
    assert_eq!(stylesheet_result(Ok("a {}".to_string())).unwrap(), "a {}");
    match stylesheet_result(Err("bad".to_string())) {
        Err(FormatError::Stylesheet { line, column, message }) => {
            assert_eq!((line, column), (1, 1));
            assert_eq!(message, "bad");
        }
        other => panic!("unexpected: {other:?}"),
    }
}

#[test]
fn leaves_stylesheets_alone_without_settings() {
    let profile = profile_of(vec![raw_group("rest", &[], true)]);
    let config = Config::new(Language::Css, profile);
    assert_eq!(annealer::format("a{color:red}", &config).unwrap(), "a{color:red}");
}

#[test]
fn prepares_and_places_embedded_stylesheets() {
    let content = "\n    a { color: red; }\n  ";
    assert_eq!(prepare_embedded(&chars(content), &chars("  ")), chars("\na { color: red; }\n"));
    assert_eq!(
        place_embedded(&chars("a {\n  color: red;\n}\n"), &chars(content), &chars("  ")),
        chars("\n    a {\n      color: red;\n    }\n  ")
    );
    let inline = "a { color: red; }";
    assert_eq!(prepare_embedded(&chars(inline), &chars("  ")), chars(inline));
    assert_eq!(
        place_embedded(&chars("a {\n  color: red;\n}\n"), &chars(inline), &chars("  ")),
        chars("\n  a {\n    color: red;\n  }\n  ")
    );
}

#[test]
fn counts_lines_and_byte_columns() {
    assert_eq!(line_col(&chars("ab\ncd"), 4), (2, 2));
    assert_eq!(line_col(&chars("é<"), 1), (1, 3));
    assert_eq!(line_col(&chars("a"), 9), (1, 2));
}

#[test]
fn scans_markup_directly() {
    let src = chars("<a title=\"t\" id=\"i\">");
    let out = scan(&src, &Profile::html(), false).unwrap();
    assert_eq!(out.iter().collect::<String>(), "<a id=\"i\" title=\"t\">");
}

#[test]
fn reports_unterminated_value_with_its_attribute_position() {
    let config = Config::for_language(Language::Html);
    let error = annealer::format("<p>\n\t<a title='oops", &config).unwrap_err();
    assert!(matches!(error, FormatError::UnterminatedAttributeValue { line: 2, column: 5 }));
}

#[test]
fn vue_top_level_text_is_not_markup() {
    let config = Config::for_language(Language::Vue);
    let input = "<p>\n\t<a title='oops";
    assert_eq!(annealer::format(input, &config).unwrap(), input);
}

#[test]
fn shorthand_keeps_keys() {
    for (long, short) in [("v-bind:title", ":title"), ("v-on:click.stop", "@click.stop")] {
        let (a, b) = (key_of(long), key_of(short));
        assert_eq!((a.name, a.bound, a.spread), (b.name, b.bound, b.spread));
    }
}

#[test]
fn normalizing_twice_changes_nothing() {
    let all = Normalize {
        directive_shorthand: true,
        hyphenate_component_props: true,
    };
    for name in ["v-bind:fooBar.camel", "myProp", "@updateValue", ":[dynamicKey]", "Data-X", "a[x.Y].mod"] {
        let once = normalize_name(name, true, &all);
        assert_eq!(normalize_name(&once, true, &all), once);
    }
    // The exception: hyphenation writes a long-form directive that the
    // shorthand then shortens.
    assert_eq!(normalize_name("vBind:foo", true, &all), "v-bind:foo");
    assert_eq!(normalize_name("v-bind:foo", true, &all), ":foo");
}

#[test]
fn static_and_bound_forms_share_a_key() {
    for x in ["title", "ariaLabel", "data-X", "[dyn]"] {
        let plain = key_of(x);
        assert_eq!(plain.name.iter().collect::<String>(), x.to_ascii_lowercase());
        assert!(!plain.bound);
        for bound in [format!(":{x}"), format!("v-bind:{x}")] {
            let key = key_of(&bound);
            assert_eq!(key.name, plain.name);
            assert!(key.bound && !key.spread);
        }
    }
}
