use argus::rpc_retry::{RpcRetryConfig, DEFAULT_AVG_COMPUTE_UNIT_COST};
use config::Config;

/// Reads the settings the way the `#[serde(default)]` deserialisation does: each field
/// present takes its value, each missing one its default.
fn read(yaml: &str) -> RpcRetryConfig {
    let builder = Config::builder().add_source(config::File::from_str(yaml, config::FileFormat::Yaml));
    let cfg = builder.build().unwrap();
    RpcRetryConfig::with_overrides(
        cfg.get::<u32>("max_retry").ok(),
        cfg.get::<u64>("backoff_ms").ok(),
        cfg.get::<u64>("compute_units_per_second").ok(),
        cfg.get::<u64>("avg_compute_unit_cost").ok(),
    )
}

#[test]
fn test_rpc_retry_config_with_custom_values() {
    let yaml = "
        max_retry: 5
        backoff_ms: 500
        compute_units_per_second: 50
        avg_compute_unit_cost: 34
    ";

    let config: RpcRetryConfig = read(yaml);

    assert_eq!(config.max_retry, 5);
    assert_eq!(config.backoff_ms, 500);
    assert_eq!(config.compute_units_per_second, 50);
    assert_eq!(config.avg_compute_unit_cost, 34);
}

#[test]
fn test_rpc_retry_config_without_custom_values_uses_default() {
    let default_config = RpcRetryConfig::default();
    let yaml = ""; // Empty YAML, so defaults should be used

    let config: RpcRetryConfig = read(yaml);

    assert_eq!(config.max_retry, default_config.max_retry);
    assert_eq!(config.backoff_ms, default_config.backoff_ms);
    assert_eq!(config.compute_units_per_second, default_config.compute_units_per_second);
    assert_eq!(config.avg_compute_unit_cost, default_config.avg_compute_unit_cost);
}

#[test]
fn default_values_are_the_documented_ones() {
    let c = RpcRetryConfig::default();
    assert_eq!(c.max_retry, 10);
    assert_eq!(c.backoff_ms, 1000);
    assert_eq!(c.compute_units_per_second, 1000);
    assert_eq!(c.avg_compute_unit_cost, 17);
    assert_eq!(DEFAULT_AVG_COMPUTE_UNIT_COST, 17);
}

#[test]
fn partial_settings_keep_the_other_defaults() {
    let c = read("backoff_ms: 250\n");
    assert_eq!(c.max_retry, 10);
    assert_eq!(c.backoff_ms, 250);
    assert_eq!(c.compute_units_per_second, 1000);
    assert_eq!(c.avg_compute_unit_cost, 17);

    let d = RpcRetryConfig::with_overrides(Some(0), None, Some(330), None);
    assert_eq!(d.max_retry, 0);
    assert_eq!(d.backoff_ms, 1000);
    assert_eq!(d.compute_units_per_second, 330);
    assert_eq!(d.avg_compute_unit_cost, 17);
}
