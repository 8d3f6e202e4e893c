use annealer::profile::{
    malva_options, GroupSort, Layout, Normalize, RawGroup, RawMalva, RawProfile, RawStylesheet,
};
use annealer::stylesheet::DeclarationSort;
use annealer::{Config, Language, Profile, ProfileError};

fn group_of(profile: &Profile, key: &str) -> String {
    let chars: Vec<char> = key.chars().collect();
    let group = profile.classify(&chars).group;
    profile.group_names()[group].clone()
}

fn raw_group(name: &str, patterns: &[&str], fallback: bool) -> RawGroup {
    RawGroup {
        name: name.to_string(),
        patterns: patterns.iter().map(|p| p.to_string()).collect(),
        sort: GroupSort::Source,
        fallback,
        spread_safe: false,
    }
}

fn raw_profile(schema_version: u32, groups: Vec<RawGroup>) -> RawProfile {
    RawProfile {
        schema_version,
        name: "x".to_string(),
        description: None,
        normalize: Normalize::default(),
        layout: Layout::default(),
        groups,
        stylesheet: None,
    }
}

fn with_malva(keys: &[&str], yaml: &str) -> RawProfile {
    let mut raw = raw_profile(1, vec![raw_group("a", &[], true)]);
    raw.stylesheet = Some(RawStylesheet {
        declaration_order: None,
        declaration_order_group_by: None,
        malva: Some(RawMalva {
            keys: keys.iter().map(|k| k.to_string()).collect(),
            yaml: yaml.to_string(),
        }),
    });
    raw
}

#[test]
fn builtin_profiles_are_valid() {
    assert_eq!(Profile::html().name(), "html");
    assert_eq!(Profile::vue().name(), "vue");
}

#[test]
fn exact_patterns_beat_prefixes() {
    let vue = Profile::vue();
    assert_eq!(group_of(&vue, "v-if"), "conditionals");
    assert_eq!(group_of(&vue, "v-on:click"), "events");
    assert_eq!(group_of(&vue, "v-model:title"), "two-way-binding");
    assert_eq!(group_of(&vue, "v-focus"), "other-directives");
    assert_eq!(group_of(&vue, "aria-expanded"), "aria-state");
    assert_eq!(group_of(&vue, "aria-controls"), "aria-property");
    assert_eq!(group_of(&vue, "disabled"), "other");
}

#[test]
fn builds_stylesheet_options() {
    let mut raw = raw_profile(1, vec![raw_group("a", &[], true)]);
    raw.stylesheet = Some(RawStylesheet {
        declaration_order: Some(DeclarationSort::Concentric),
        declaration_order_group_by: None,
        malva: Some(RawMalva {
            keys: vec!["indentWidth".to_string(), "quotes".to_string()],
            yaml: "indentWidth: 4\nquotes: prefer-single\n".to_string(),
        }),
    });
    let profile = Profile::from_raw(raw).unwrap();
    let config = Config::new(Language::Css, profile);
    let output = annealer::format("a { color: red; display: block; }\n", &config).unwrap();
    assert_eq!(output, "a {\n    display: block;\n    color: red;\n}\n");
}

#[test]
fn rejects_unknown_malva_options() {
    let misplaced = with_malva(&["declarationOrder"], "declarationOrder: smacss\n");
    assert!(matches!(
        Profile::from_raw(misplaced),
        Err(ProfileError::MalvaOption(key)) if key == "declarationOrder"
    ));
    let snake_case = with_malva(&["indent_width"], "indent_width: 4\n");
    assert!(matches!(
        Profile::from_raw(snake_case),
        Err(ProfileError::MalvaOption(_))
    ));
}

#[test]
fn rejects_bad_schema_and_structure() {
    let wrong_version = raw_profile(2, vec![raw_group("a", &[], true)]);
    assert!(matches!(
        Profile::from_raw(wrong_version),
        Err(ProfileError::SchemaVersion(2))
    ));

    let no_fallback = raw_profile(1, vec![raw_group("a", &["id"], false)]);
    assert!(matches!(
        Profile::from_raw(no_fallback),
        Err(ProfileError::Fallback(0))
    ));

    let bad_glob = raw_profile(1, vec![raw_group("a", &[], true), raw_group("b", &["*-x"], false)]);
    assert!(matches!(
        Profile::from_raw(bad_glob),
        Err(ProfileError::Pattern { .. })
    ));
}

#[test]
fn rejects_two_fallbacks_empty_names_duplicates_and_empty_groups() {
    let two = raw_profile(1, vec![raw_group("a", &[], true), raw_group("b", &[], true)]);
    assert!(matches!(Profile::from_raw(two), Err(ProfileError::Fallback(2))));

    let mut unnamed = raw_profile(1, vec![raw_group("a", &[], true)]);
    unnamed.name = String::new();
    assert!(matches!(Profile::from_raw(unnamed), Err(ProfileError::EmptyName)));

    let empty_group_name = raw_profile(1, vec![raw_group("", &["id"], true)]);
    assert!(matches!(Profile::from_raw(empty_group_name), Err(ProfileError::EmptyName)));

    let duplicate = raw_profile(1, vec![raw_group("a", &[], true), raw_group("a", &["id"], false)]);
    assert!(matches!(
        Profile::from_raw(duplicate),
        Err(ProfileError::DuplicateGroup(name)) if name == "a"
    ));

    let empty = raw_profile(1, vec![raw_group("a", &[], true), raw_group("b", &[], false)]);
    assert!(matches!(
        Profile::from_raw(empty),
        Err(ProfileError::EmptyGroup(name)) if name == "b"
    ));
}

#[test]
fn reports_the_bad_pattern_and_its_group() {
    let raw = raw_profile(1, vec![raw_group("rest", &[], true), raw_group("b", &["id", "a*b"], false)]);
    match Profile::from_raw(raw) {
        Err(ProfileError::Pattern { group, pattern }) => {
            assert_eq!(group, "b");
            assert_eq!(pattern, "a*b");
        }
        other => panic!("unexpected: {other:?}"),
    }
}

#[test]
fn rejects_malva_options_that_malva_refuses() {
    let raw = with_malva(&["indentWidth"], "indentWidth: wide\n");
    assert!(matches!(Profile::from_raw(raw), Err(ProfileError::Yaml(_))));
}

#[test]
fn accepts_a_valid_raw_profile() {
    let mut raw = raw_profile(1, vec![raw_group("rest", &[], true), raw_group("ids", &["id", "data-*"], false)]);
    raw.description = Some("d".to_string());
    let profile = Profile::from_raw(raw).unwrap();
    assert_eq!(profile.name(), "x");
    assert_eq!(profile.description(), Some("d".to_string()));
    assert_eq!(profile.group_names(), vec!["rest".to_string(), "ids".to_string()]);
    assert_eq!(group_of(&profile, "data-x"), "ids");
    assert_eq!(group_of(&profile, "title"), "rest");
}

#[test]
fn classifies_with_the_html_profile() {
    let html = Profile::html();
    assert_eq!(group_of(&html, "id"), "global");
    assert_eq!(group_of(&html, "aria-label"), "aria-name");
    assert_eq!(group_of(&html, "aria-hidden"), "aria-state");
    assert_eq!(group_of(&html, "aria-owns"), "aria-property");
    assert_eq!(group_of(&html, "onclick"), "events");
    assert_eq!(group_of(&html, "data-x"), "data");
    assert_eq!(group_of(&html, "required"), "other");
}

#[test]
fn looks_up_builtin_profiles_by_name() {
    assert_eq!(Profile::builtin("html").unwrap().name(), "html");
    assert_eq!(Profile::builtin("vue").unwrap().name(), "vue");
    assert!(Profile::builtin("svelte").is_none());
    assert_eq!(Profile::html().group_sort(12), GroupSort::Alphabetical);
    assert!(Profile::vue().group_spread_safe(0));
    assert!(!Profile::vue().group_spread_safe(4));
}

#[test]
fn malva_options_match_schema() {
    let normalize = |key: &str| key.replace('_', "").to_ascii_lowercase();
    let defaults = serde_json::to_value(malva::config::FormatOptions::default()).unwrap();
    let mut from_malva: Vec<String> = defaults
        .as_object()
        .unwrap()
        .keys()
        .map(|key| normalize(key))
        .filter(|key| key != "declarationorder" && key != "declarationordergroupby")
        .collect();
    let mut ours: Vec<String> = malva_options().iter().map(|key| normalize(key)).collect();
    from_malva.sort_unstable();
    ours.sort_unstable();
    assert_eq!(ours, from_malva);
}

/// The two rules only the loader enforces: exactly one fallback group, and
/// distinct group names.
#[test]
fn loader_is_stricter_where_schema_cannot_be() {
    let two_fallbacks = raw_profile(1, vec![raw_group("rest", &[], true), raw_group("more", &[], true)]);
    let duplicate_names = raw_profile(1, vec![raw_group("rest", &[], true), raw_group("rest", &["id"], false)]);
    for raw in [two_fallbacks, duplicate_names] {
        assert!(Profile::from_raw(raw).is_err());
    }
}
