use cache_key_normalizer::config::NormalizerConfig;
use cache_key_normalizer::{parse_config, validate_config};

#[test]
fn defaults_strip_common_tracking_noise() {
    let config = NormalizerConfig::default();
    assert_eq!(config.mode, "rewrite");
    assert!(config.lowercase_host);
    assert!(config.sort_query);
    assert!(config.remove_query_prefixes.contains(&"utm_".to_string()));
    assert!(config.remove_query_params.contains(&"gclid".to_string()));
}

#[test]
fn default_config_has_documented_values() {
    let config = NormalizerConfig::default();
    assert!(config.strip_default_port);
    assert!(config.normalize_path);
    assert!(!config.lowercase_path);
    assert!(config.emit_headers);
    assert_eq!(
        config.remove_query_params,
        vec!["fbclid", "gclid", "msclkid", "yclid", "mc_cid", "mc_eid"]
    );
    assert_eq!(config.remove_query_prefixes, vec!["utm_"]);
    assert!(config.keep_query_params.is_empty());
    assert!(config.vary_headers.is_empty());
    assert_eq!(config.trailing_slash, "preserve");
    assert_eq!(config.cache_key_header, "x-cache-key");
    assert_eq!(config.normalized_header, "x-cache-key-normalized");
}

#[test]
fn report_mode_ignores_ascii_case() {
    let mut config = NormalizerConfig::default();
    assert!(!config.is_report_mode());
    config.mode = "report".to_string();
    assert!(config.is_report_mode());
    config.mode = "RePoRt".to_string();
    assert!(config.is_report_mode());
    config.mode = "reports".to_string();
    assert!(!config.is_report_mode());
    config.mode = "".to_string();
    assert!(!config.is_report_mode());
}

#[test]
fn validate_accepts_known_modes_and_policies() {
    for mode in ["rewrite", "report"] {
        for slash in ["preserve", "strip", "add"] {
            let config = NormalizerConfig {
                mode: mode.to_string(),
                trailing_slash: slash.to_string(),
                ..NormalizerConfig::default()
            };
            let checked = validate_config(config.clone()).unwrap();
            assert_eq!(checked, config);
        }
    }
}

#[test]
fn validate_rejects_unknown_mode() {
    let config = NormalizerConfig {
        mode: "shadow".to_string(),
        ..NormalizerConfig::default()
    };
    let err = validate_config(config).unwrap_err();
    assert!(err.contains("mode"));
    assert_eq!(err, "invalid-config: mode must be rewrite or report");
}

#[test]
fn validate_rejects_mode_case_variant() {
    let config = NormalizerConfig {
        mode: "Report".to_string(),
        ..NormalizerConfig::default()
    };
    assert_eq!(
        validate_config(config).unwrap_err(),
        "invalid-config: mode must be rewrite or report"
    );
}

#[test]
fn validate_rejects_unknown_trailing_slash() {
    let config = NormalizerConfig {
        trailing_slash: "keep".to_string(),
        ..NormalizerConfig::default()
    };
    assert_eq!(
        validate_config(config).unwrap_err(),
        "invalid-config: trailing_slash must be preserve, strip, or add"
    );
}

#[test]
fn validate_checks_mode_before_trailing_slash() {
    let config = NormalizerConfig {
        mode: "shadow".to_string(),
        trailing_slash: "keep".to_string(),
        ..NormalizerConfig::default()
    };
    assert_eq!(
        validate_config(config).unwrap_err(),
        "invalid-config: mode must be rewrite or report"
    );
}

#[test]
fn parses_custom_config() {
    let json = br#"{
            "mode":"report",
            "lowercase_path":true,
            "keep_query_params":["sku","page"],
            "remove_query_params":[],
            "remove_query_prefixes":[],
            "vary_headers":["accept-language"],
            "trailing_slash":"strip"
        }"#;
    // The configuration that this JSON object decodes to.
    let decoded = NormalizerConfig {
        mode: "report".to_string(),
        lowercase_path: true,
        keep_query_params: vec!["sku".to_string(), "page".to_string()],
        remove_query_params: vec![],
        remove_query_prefixes: vec![],
        vary_headers: vec!["accept-language".to_string()],
        trailing_slash: "strip".to_string(),
        ..NormalizerConfig::default()
    };
    let config = parse_config(json, Ok(decoded)).unwrap();
    assert!(config.is_report_mode());
    assert!(config.lowercase_path);
    assert_eq!(config.keep_query_params, vec!["sku", "page"]);
    assert_eq!(config.vary_headers, vec!["accept-language"]);
    assert_eq!(config.trailing_slash, "strip");
}

#[test]
fn rejects_unknown_mode() {
    let decoded = NormalizerConfig {
        mode: "shadow".to_string(),
        ..NormalizerConfig::default()
    };
    let err = parse_config(br#"{"mode":"shadow"}"#, Ok(decoded)).unwrap_err();
    assert!(err.contains("mode"));
}

#[test]
fn parse_config_empty_bytes_give_defaults() {
    let decode_error = Err("EOF while parsing a JSON value.".to_string());
    let config = parse_config(b"", decode_error).unwrap();
    assert_eq!(config, NormalizerConfig::default());
}

#[test]
fn parse_config_prefixes_decode_error() {
    let err = parse_config(b"not json", Err("Expected value.".to_string())).unwrap_err();
    assert_eq!(err, "invalid-config: Expected value.");
    let err = parse_config(br#"{"sort_query":"yes"}"#, Err(String::new())).unwrap_err();
    assert_eq!(err, "invalid-config: ");
}

#[test]
fn parse_config_validates_trailing_slash() {
    let decoded = NormalizerConfig {
        trailing_slash: "keep".to_string(),
        ..NormalizerConfig::default()
    };
    assert_eq!(
        parse_config(br#"{"trailing_slash":"keep"}"#, Ok(decoded)).unwrap_err(),
        "invalid-config: trailing_slash must be preserve, strip, or add"
    );
}
