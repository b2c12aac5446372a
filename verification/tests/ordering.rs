use pact_plugin_driver::plugin_manager::resolve_entry_point;
use pact_plugin_driver::plugin_models::PactPluginManifest;
use pact_plugin_driver::versions::version_lt;

#[test]
fn numeric_components_compare_numerically() {
    assert!(version_lt("1.9.0", "1.10.0"));
    assert!(!version_lt("1.10.0", "1.9.0"));
    assert!(version_lt("2", "10"));
    assert!(!version_lt("10", "2"));
    assert!(version_lt("0.9.9", "1.0.0"));
}

#[test]
fn equal_versions_are_not_ordered() {
    assert!(!version_lt("1.2.3", "1.2.3"));
    // Leading zeros do not change the number a component denotes.
    assert!(!version_lt("1.02.3", "1.2.3"));
    assert!(!version_lt("1.2.3", "1.02.3"));
}

#[test]
fn shorter_versions_order_below_their_extensions() {
    assert!(version_lt("1.2", "1.2.0"));
    assert!(!version_lt("1.2.0", "1.2"));
    assert!(version_lt("1", "1.0"));
}

#[test]
fn entry_point_resolution_prefers_the_exact_platform() {
    let m = PactPluginManifest {
        plugin_dir: "/plugins/csv-1.0.0".to_string(),
        entry_point: "pact-csv-plugin".to_string(),
        entry_points: vec![
            ("Mac OS (arm64)".to_string(), "pact-csv-plugin-macos".to_string()),
            ("windows".to_string(), "pact-csv-plugin.exe".to_string()),
        ],
        name: "csv".to_string(),
        version: "1.0.0".to_string(),
        executable_type: "exec".to_string(),
    };
    assert_eq!(resolve_entry_point(&m, "Mac OS (arm64)", false), "pact-csv-plugin-macos");
    assert_eq!(resolve_entry_point(&m, "Windows 11", true), "pact-csv-plugin.exe");
    assert_eq!(resolve_entry_point(&m, "Ubuntu 22.04", false), "pact-csv-plugin");
}

#[test]
fn entry_point_resolution_without_overrides_is_generic() {
    let m = PactPluginManifest {
        plugin_dir: "/plugins/csv-1.0.0".to_string(),
        entry_point: "pact-csv-plugin".to_string(),
        entry_points: Vec::new(),
        name: "csv".to_string(),
        version: "1.0.0".to_string(),
        executable_type: "exec".to_string(),
    };
    assert_eq!(resolve_entry_point(&m, "Windows 11", true), "pact-csv-plugin");
}
