use pact_plugin_driver::catalogue_manager::find_content_generator;
use pact_plugin_driver::catalogue_manager::find_content_matcher;
use pact_plugin_driver::catalogue_manager::register_core_entries;
use pact_plugin_driver::catalogue_manager::register_plugin_entries;
use pact_plugin_driver::catalogue_manager::remove_plugin_entries;
use pact_plugin_driver::catalogue_manager::CatalogueEntry;
use pact_plugin_driver::catalogue_manager::CatalogueEntryProviderType;
use pact_plugin_driver::catalogue_manager::CatalogueEntryType;
use pact_plugin_driver::catalogue_manager::CatalogueRegistry;
use pact_plugin_driver::catalogue_manager::PluginCatalogueEntry;
use pact_plugin_driver::plugin_models::PactPluginManifest;

fn manifest(name: &str, version: &str) -> PactPluginManifest {
    PactPluginManifest {
        plugin_dir: format!("/plugins/{}-{}", name, version),
        entry_point: format!("pact-{}-plugin", name),
        entry_points: Vec::new(),
        name: name.to_string(),
        version: version.to_string(),
        executable_type: "exec".to_string(),
    }
}

fn matcher_entry(key: &str, content_types: &str) -> PluginCatalogueEntry {
    PluginCatalogueEntry {
        entry_type: CatalogueEntryType::CONTENT_MATCHER,
        key: key.to_string(),
        values: vec![("content-types".to_string(), content_types.to_string())],
    }
}

fn core_entry(entry_type: CatalogueEntryType, key: &str) -> CatalogueEntry {
    CatalogueEntry {
        entry_type,
        provider_type: CatalogueEntryProviderType::CORE,
        plugin: None,
        key: key.to_string(),
        values: Vec::new(),
    }
}

#[test]
fn plugin_entries_are_stored_under_namespaced_keys() {
    let mut cat = CatalogueRegistry::new();
    let m = manifest("csv", "1.0.0");
    register_plugin_entries(&mut cat, &m, &vec![matcher_entry("matcher", "text/csv")]);
    assert!(cat.contains_key("plugin/csv/content-matcher/matcher"));
    let entry = cat.get("plugin/csv/content-matcher/matcher").unwrap();
    assert_eq!(entry.key, "plugin/csv/content-matcher/matcher");
    assert_eq!(entry.provider_type, CatalogueEntryProviderType::PLUGIN);
    assert_eq!(entry.plugin.as_ref().unwrap().name, "csv");
}

#[test]
fn core_registration_is_first_writer_wins() {
    let mut cat = CatalogueRegistry::new();
    let mut first = core_entry(CatalogueEntryType::INTERACTION, "http");
    first.values = vec![("kind".to_string(), "first-writer".to_string())];
    let added = register_core_entries(&mut cat, &vec![first]);
    assert_eq!(added, vec!["core/interaction/http".to_string()]);

    let mut second = core_entry(CatalogueEntryType::INTERACTION, "http");
    second.values = vec![("kind".to_string(), "late-comer".to_string())];
    let added_again = register_core_entries(&mut cat, &vec![second]);
    assert!(added_again.is_empty());

    let entry = cat.get("core/interaction/http").unwrap();
    assert_eq!(entry.values[0].1, "first-writer");
}

#[test]
fn plugin_registration_overwrites_on_reload() {
    let mut cat = CatalogueRegistry::new();
    let m = manifest("csv", "1.0.0");
    register_plugin_entries(&mut cat, &m, &vec![matcher_entry("matcher", "text/csv")]);
    register_plugin_entries(&mut cat, &m, &vec![matcher_entry("matcher", "text/tab-separated-values")]);
    let entry = cat.get("plugin/csv/content-matcher/matcher").unwrap();
    assert_eq!(entry.values[0].1, "text/tab-separated-values");
}

#[test]
fn remove_plugin_entries_goes_by_exact_name_prefix() {
    let mut cat = CatalogueRegistry::new();
    register_plugin_entries(&mut cat, &manifest("foo", "1.0.0"), &vec![matcher_entry(
        "matcher",
        "text/foo",
    )]);
    register_plugin_entries(&mut cat, &manifest("foobar", "1.0.0"), &vec![matcher_entry(
        "matcher",
        "text/foobar",
    )]);
    remove_plugin_entries(&mut cat, "foo");
    assert!(!cat.contains_key("plugin/foo/content-matcher/matcher"));
    assert!(cat.contains_key("plugin/foobar/content-matcher/matcher"));
}

#[test]
fn content_matcher_is_found_by_pattern() {
    let mut cat = CatalogueRegistry::new();
    let m = manifest("jsonx", "0.1.0");
    register_plugin_entries(&mut cat, &m, &vec![matcher_entry(
        "matcher",
        "application/json;application/.*\\+json",
    )]);
    let hit = find_content_matcher(&cat, "application/vnd.api+json");
    assert!(hit.is_some());
    assert_eq!(hit.unwrap().key, "plugin/jsonx/content-matcher/matcher");
    assert!(find_content_matcher(&cat, "text/plain").is_none());
}

#[test]
fn content_matcher_patterns_may_carry_spaces() {
    let mut cat = CatalogueRegistry::new();
    let m = manifest("csv", "1.0.0");
    register_plugin_entries(&mut cat, &m, &vec![matcher_entry(
        "matcher",
        "text/csv ; text/tab-separated-values",
    )]);
    assert!(find_content_matcher(&cat, "text/csv").is_some());
    assert!(find_content_matcher(&cat, "text/tab-separated-values").is_some());
    assert!(find_content_matcher(&cat, "application/json").is_none());
}

#[test]
fn content_matcher_falls_back_to_the_base_type() {
    let mut cat = CatalogueRegistry::new();
    let m = manifest("csv", "1.0.0");
    register_plugin_entries(&mut cat, &m, &vec![matcher_entry("matcher", "^text/csv$")]);
    // The full string does not match the anchored pattern; the base
    // `type/subtype` form computed from it does.
    assert!(find_content_matcher(&cat, "text/csv;charset=utf-8").is_some());
    assert!(find_content_matcher(&cat, "text/plain;charset=utf-8").is_none());
}

#[test]
fn malformed_regex_patterns_are_non_matches() {
    let mut cat = CatalogueRegistry::new();
    let m = manifest("bad", "1.0.0");
    register_plugin_entries(&mut cat, &m, &vec![matcher_entry("matcher", "(unclosed")]);
    assert!(find_content_matcher(&cat, "text/plain").is_none());
}

#[test]
fn generator_lookup_ignores_matcher_entries() {
    let mut cat = CatalogueRegistry::new();
    let m = manifest("csv", "1.0.0");
    register_plugin_entries(&mut cat, &m, &vec![
        matcher_entry("matcher", "text/csv"),
        PluginCatalogueEntry {
            entry_type: CatalogueEntryType::CONTENT_GENERATOR,
            key: "generator".to_string(),
            values: vec![("content-types".to_string(), "text/csv".to_string())],
        },
    ]);
    let gen = find_content_generator(&cat, "text/csv").unwrap();
    assert_eq!(gen.entry_type, CatalogueEntryType::CONTENT_GENERATOR);
    assert_eq!(gen.key, "plugin/csv/content-generator/generator");
}

#[test]
fn entry_without_content_types_value_never_matches() {
    let mut cat = CatalogueRegistry::new();
    let m = manifest("csv", "1.0.0");
    register_plugin_entries(&mut cat, &m, &vec![PluginCatalogueEntry {
        entry_type: CatalogueEntryType::CONTENT_MATCHER,
        key: "matcher".to_string(),
        values: Vec::new(),
    }]);
    assert!(find_content_matcher(&cat, "text/csv").is_none());
}

#[test]
fn within_one_registration_the_later_entry_wins() {
    let mut cat = CatalogueRegistry::new();
    let m = manifest("csv", "1.0.0");
    register_plugin_entries(&mut cat, &m, &vec![
        matcher_entry("matcher", "text/plain"),
        matcher_entry("matcher", "text/csv"),
    ]);
    let entry = cat.get("plugin/csv/content-matcher/matcher").unwrap();
    assert_eq!(entry.values[0].1, "text/csv");
}

#[test]
fn entry_type_names_round_trip() {
    let all = [
        CatalogueEntryType::CONTENT_MATCHER,
        CatalogueEntryType::CONTENT_GENERATOR,
        CatalogueEntryType::MOCK_SERVER,
        CatalogueEntryType::MATCHER,
        CatalogueEntryType::INTERACTION,
    ];
    for t in all {
        assert_eq!(CatalogueEntryType::parse_name(t.name_str()), Some(t));
    }
    assert_eq!(CatalogueEntryType::name_str(&CatalogueEntryType::CONTENT_MATCHER), "content-matcher");
    assert_eq!(CatalogueEntryType::parse_name("something-else"), None);
}
