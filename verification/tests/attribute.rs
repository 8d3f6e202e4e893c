use annealer::attribute::{is_component, key_of, normalize_name};
use annealer::profile::Normalize;

fn key(name: &str) -> String {
    key_of(name).name.iter().collect()
}

#[test]
fn strips_binding_prefixes_and_modifiers() {
    assert_eq!(key("class"), "class");
    assert_eq!(key(":class"), "class");
    assert_eq!(key("v-bind:class"), "class");
    assert_eq!(key(":text-content.prop"), "text-content");
    assert_eq!(key(".textContent"), "textcontent");
    assert!(key_of(":class").bound);
    assert!(!key_of("class").bound);
}

#[test]
fn maps_events_slots_and_directives() {
    assert_eq!(key("@click.prevent"), "v-on:click");
    assert_eq!(key("v-on:click"), "v-on:click");
    assert_eq!(key("v-on"), "v-on");
    assert_eq!(key("#default"), "v-slot:default");
    assert_eq!(key("v-slot"), "v-slot");
    assert_eq!(key("v-model.trim"), "v-model");
    assert_eq!(key("v-model:title"), "v-model:title");
    assert_eq!(key(":[dynamic.key]"), "[dynamic.key]");
}

#[test]
fn detects_spread() {
    assert!(key_of("v-bind").spread);
    assert!(key_of("v-bind.prop").spread);
    assert!(!key_of("v-bind:foo").spread);
}

#[test]
fn normalizes_shorthand_and_hyphenation() {
    let all = Normalize {
        directive_shorthand: true,
        hyphenate_component_props: true,
    };
    assert_eq!(normalize_name("v-bind:foo", false, &all), ":foo");
    assert_eq!(normalize_name("v-on:click.stop", false, &all), "@click.stop");
    assert_eq!(normalize_name("v-bind", false, &all), "v-bind");
    assert_eq!(normalize_name(":fooBar", true, &all), ":foo-bar");
    assert_eq!(normalize_name("v-bind:fooBar.camel", true, &all), ":foo-bar.camel");
    assert_eq!(normalize_name("myProp", true, &all), "my-prop");
    assert_eq!(normalize_name("myProp", false, &all), "myProp");
    assert_eq!(normalize_name("@updateValue", true, &all), "@updateValue");
    assert_eq!(normalize_name(":[dynamicKey]", true, &all), ":[dynamicKey]");
}

#[test]
fn recognizes_components() {
    assert!(is_component("MyButton"));
    assert!(is_component("my-button"));
    assert!(!is_component("div"));
    assert!(!is_component("linearGradient"));
    assert!(!is_component("font-face"));
}

#[test]
fn keeps_names_unchanged_without_normalization() {
    let none = Normalize {
        directive_shorthand: false,
        hyphenate_component_props: false,
    };
    assert_eq!(normalize_name("v-bind:fooBar", true, &none), "v-bind:fooBar");
    assert_eq!(normalize_name("v-on:click", true, &none), "v-on:click");
}

#[test]
fn shortens_only_with_directive_shorthand() {
    let shorthand = Normalize {
        directive_shorthand: true,
        hyphenate_component_props: false,
    };
    assert_eq!(normalize_name("v-bind:fooBar", true, &shorthand), ":fooBar");
    assert_eq!(normalize_name("v-on:click", false, &shorthand), "@click");
}

#[test]
fn lowercases_keys_and_keeps_event_modifiers_out() {
    assert_eq!(key("onClick"), "onclick");
    assert_eq!(key("@Click.once"), "v-on:click");
    assert!(!key_of("@click").bound);
    assert!(key_of("v-bind:title").bound);
}
