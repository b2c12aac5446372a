use pact_plugin_driver::catalogue_manager::find_content_matcher;
use pact_plugin_driver::catalogue_manager::register_core_entries;
use pact_plugin_driver::catalogue_manager::register_plugin_entries;
use pact_plugin_driver::catalogue_manager::CatalogueEntry;
use pact_plugin_driver::catalogue_manager::CatalogueEntryProviderType;
use pact_plugin_driver::catalogue_manager::CatalogueEntryType;
use pact_plugin_driver::catalogue_manager::CatalogueRegistry;
use pact_plugin_driver::catalogue_manager::PluginCatalogueEntry;
use pact_plugin_driver::plugin_manager::LoadError;
use pact_plugin_driver::plugin_manager::LoadOutcome;
use pact_plugin_driver::plugin_manager::PluginRegistry;
use pact_plugin_driver::plugin_models::PactPlugin;
use pact_plugin_driver::plugin_models::PactPluginManifest;
use pact_plugin_driver::plugin_models::PluginDependency;

fn manifest(name: &str, version: &str) -> PactPluginManifest {
    PactPluginManifest {
        plugin_dir: format!("/plugins/{}-{}", name, version),
        entry_point: format!("pact-{}-plugin", name),
        entry_points: Vec::new(),
        name: name.to_string(),
        version: version.to_string(),
        executable_type: "exec".to_string(),
    }
}

fn dep(name: &str, version: Option<&str>) -> PluginDependency {
    PluginDependency { name: name.to_string(), version: version.map(|v| v.to_string()) }
}

/// Plays the embedding application's part of a successful load: start the
/// process, perform the handshake, register the offered entries, record the
/// instance.
fn complete_start(
    registry: &mut PluginRegistry,
    catalogue: &mut CatalogueRegistry,
    manifest: PactPluginManifest,
    pid: u64,
    entries: Vec<PluginCatalogueEntry>,
) -> PactPlugin {
    register_plugin_entries(catalogue, &manifest, &entries);
    let plugin = PactPlugin::new(manifest, pid, 7000);
    registry.insert_plugin(plugin.clone());
    plugin
}

#[test]
fn repeated_loads_return_the_same_instance_and_count_them() {
    let mut registry = PluginRegistry::new();
    let mut catalogue = CatalogueRegistry::new();
    let d = dep("csv", None);
    let discovered = vec![manifest("csv", "1.0.0")];

    let first = registry.load_plugin(&d, &discovered).unwrap();
    let started = match first {
        LoadOutcome::StartRequired(m) => {
            complete_start(&mut registry, &mut catalogue, m, 41, Vec::new())
        },
        LoadOutcome::Running(_) => panic!("nothing should be running yet"),
    };
    assert_eq!(started.access_count, 1);

    let mut seen_pids = Vec::new();
    for expected in [2u64, 3, 4] {
        match registry.load_plugin(&d, &discovered).unwrap() {
            LoadOutcome::Running(p) => {
                assert_eq!(p.access_count, expected);
                seen_pids.push(p.child_pid);
            },
            LoadOutcome::StartRequired(_) => panic!("must reuse the running instance"),
        }
    }
    assert_eq!(seen_pids, vec![41, 41, 41]);
}

#[test]
fn release_stops_only_after_the_last_outstanding_load() {
    let mut registry = PluginRegistry::new();
    let mut catalogue = CatalogueRegistry::new();
    let d = dep("csv", Some("1.0.0"));
    let discovered = vec![manifest("csv", "1.0.0")];

    match registry.load_plugin(&d, &discovered).unwrap() {
        LoadOutcome::StartRequired(m) => {
            complete_start(&mut registry, &mut catalogue, m, 42, vec![PluginCatalogueEntry {
                entry_type: CatalogueEntryType::CONTENT_MATCHER,
                key: "matcher".to_string(),
                values: vec![("content-types".to_string(), "text/csv".to_string())],
            }]);
        },
        LoadOutcome::Running(_) => panic!("nothing should be running yet"),
    }
    match registry.load_plugin(&d, &discovered).unwrap() {
        LoadOutcome::Running(p) => assert_eq!(p.access_count, 2),
        LoadOutcome::StartRequired(_) => panic!("must reuse the running instance"),
    }

    // One release fewer than the reference count leaves it running.
    assert_eq!(registry.drop_plugin_access(&d, &mut catalogue), None);
    assert!(registry.lookup_plugin(&d).is_some());
    assert!(find_content_matcher(&catalogue, "text/csv").is_some());

    // The last release stops it and clears its catalogue entries.
    assert_eq!(registry.drop_plugin_access(&d, &mut catalogue), Some(42));
    assert!(registry.lookup_plugin(&d).is_none());
    assert!(find_content_matcher(&catalogue, "text/csv").is_none());

    // Releasing a dependency with no running match is a no-op.
    assert_eq!(registry.drop_plugin_access(&d, &mut catalogue), None);
}

#[test]
fn load_and_release_scenario_with_core_entries() {
    let mut registry = PluginRegistry::new();
    let mut catalogue = CatalogueRegistry::new();
    register_core_entries(&mut catalogue, &vec![CatalogueEntry {
        entry_type: CatalogueEntryType::INTERACTION,
        provider_type: CatalogueEntryProviderType::CORE,
        plugin: None,
        key: "http".to_string(),
        values: Vec::new(),
    }]);

    let d = dep("csv", Some("1.0.0"));
    let discovered = vec![manifest("csv", "1.0.0")];
    match registry.load_plugin(&d, &discovered).unwrap() {
        LoadOutcome::StartRequired(m) => {
            assert_eq!(m.name, "csv");
            complete_start(&mut registry, &mut catalogue, m, 77, vec![PluginCatalogueEntry {
                entry_type: CatalogueEntryType::CONTENT_MATCHER,
                key: "matcher".to_string(),
                values: vec![("content-types".to_string(), "text/csv".to_string())],
            }]);
        },
        LoadOutcome::Running(_) => panic!("nothing should be running yet"),
    }

    let hit = find_content_matcher(&catalogue, "text/csv").unwrap();
    assert_eq!(hit.key, "plugin/csv/content-matcher/matcher");
    assert_eq!(hit.plugin.as_ref().unwrap().name, "csv");

    assert_eq!(registry.drop_plugin_access(&d, &mut catalogue), Some(77));
    assert!(find_content_matcher(&catalogue, "text/csv").is_none());
    // Core entries survive a plugin's removal.
    assert!(catalogue.contains_key("core/interaction/http"));
}

#[test]
fn second_load_of_a_just_started_plugin_spawns_nothing() {
    let mut registry = PluginRegistry::new();
    let mut catalogue = CatalogueRegistry::new();
    let d = dep("csv", None);
    let discovered = vec![manifest("csv", "1.0.0")];

    // Two callers ask for the same not-yet-running plugin; the registry's
    // serialized load discipline lets one start it...
    let first = registry.load_plugin(&d, &discovered).unwrap();
    let m = match first {
        LoadOutcome::StartRequired(m) => m,
        LoadOutcome::Running(_) => panic!("nothing should be running yet"),
    };
    let mut starts = 1;
    complete_start(&mut registry, &mut catalogue, m, 90, Vec::new());

    // ...and the other observes the same instance instead of starting one.
    match registry.load_plugin(&d, &discovered).unwrap() {
        LoadOutcome::Running(p) => {
            assert_eq!(p.child_pid, 90);
            assert_eq!(p.access_count, 2);
        },
        LoadOutcome::StartRequired(_) => starts += 1,
    }
    assert_eq!(starts, 1);
}

#[test]
fn load_without_a_manifest_fails_and_registers_nothing() {
    let mut registry = PluginRegistry::new();
    let d = dep("missing", None);
    let outcome = registry.load_plugin(&d, &Vec::new());
    assert_eq!(outcome.unwrap_err(), LoadError::ManifestNotFound);
    assert!(registry.lookup_plugin(&d).is_none());
}

#[test]
fn unsupported_executable_type_is_refused() {
    let mut registry = PluginRegistry::new();
    let d = dep("oddball", None);
    let mut m = manifest("oddball", "1.0.0");
    m.executable_type = "container".to_string();
    let outcome = registry.load_plugin(&d, &vec![m]);
    assert_eq!(outcome.unwrap_err(), LoadError::UnsupportedExecutableType);
    assert!(registry.lookup_plugin(&d).is_none());
}

#[test]
fn unversioned_lookup_takes_the_highest_version() {
    let mut registry = PluginRegistry::new();
    registry.insert_plugin(PactPlugin::new(manifest("csv", "1.9.0"), 1, 7001));
    registry.insert_plugin(PactPlugin::new(manifest("csv", "1.10.0"), 2, 7002));
    registry.insert_plugin(PactPlugin::new(manifest("csv", "1.2.3"), 3, 7003));

    let found = registry.lookup_plugin(&dep("csv", None)).unwrap();
    assert_eq!(found.manifest.version, "1.10.0");

    let pinned = registry.lookup_plugin(&dep("csv", Some("1.9.0"))).unwrap();
    assert_eq!(pinned.child_pid, 1);

    assert!(registry.lookup_plugin(&dep("csv", Some("2.0.0"))).is_none());
    assert!(registry.lookup_plugin(&dep("xml", None)).is_none());
}

#[test]
fn manifest_cache_prefers_cached_and_caches_disk_hits() {
    let mut registry = PluginRegistry::new();
    let d = dep("csv", None);
    assert!(registry.lookup_plugin_manifest(&d).is_none());

    let discovered = vec![manifest("xml", "1.0.0"), manifest("csv", "0.5.0")];
    let loaded = registry.load_plugin_manifest(&d, &discovered).unwrap();
    assert_eq!(loaded.version, "0.5.0");

    // Now cached: resolving again without disk results still succeeds.
    let cached = registry.load_plugin_manifest(&d, &Vec::new()).unwrap();
    assert_eq!(cached.version, "0.5.0");
    assert_eq!(registry.lookup_plugin_manifest(&d).unwrap().version, "0.5.0");
}

#[test]
fn shutdown_stops_every_instance_regardless_of_count() {
    let mut registry = PluginRegistry::new();
    let mut catalogue = CatalogueRegistry::new();
    let d1 = dep("csv", Some("1.0.0"));
    let discovered = vec![manifest("csv", "1.0.0"), manifest("xml", "2.0.0")];
    match registry.load_plugin(&d1, &discovered).unwrap() {
        LoadOutcome::StartRequired(m) => {
            complete_start(&mut registry, &mut catalogue, m, 11, vec![PluginCatalogueEntry {
                entry_type: CatalogueEntryType::CONTENT_MATCHER,
                key: "matcher".to_string(),
                values: vec![("content-types".to_string(), "text/csv".to_string())],
            }]);
        },
        LoadOutcome::Running(_) => panic!("nothing should be running yet"),
    }
    registry.load_plugin(&d1, &discovered).unwrap();
    let d2 = dep("xml", None);
    match registry.load_plugin(&d2, &discovered).unwrap() {
        LoadOutcome::StartRequired(m) => {
            complete_start(&mut registry, &mut catalogue, m, 12, Vec::new());
        },
        LoadOutcome::Running(_) => panic!("nothing should be running yet"),
    }

    let pids = registry.shutdown_plugins(&mut catalogue);
    assert_eq!(pids, vec![11, 12]);
    assert!(registry.lookup_plugin(&d1).is_none());
    assert!(registry.lookup_plugin(&d2).is_none());
    assert!(find_content_matcher(&catalogue, "text/csv").is_none());
}

#[test]
fn error_messages_name_the_failure() {
    assert_eq!(LoadError::ManifestNotFound.message(), "plugin manifest was not found");
    assert_eq!(
        LoadError::UnsupportedExecutableType.message(),
        "plugin executable type is not supported"
    );
    assert_eq!(LoadError::StartError.message(), "plugin process failed to start");
    assert_eq!(LoadError::HandshakeError.message(), "init request to the plugin failed");
}
