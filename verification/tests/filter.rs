use cache_key_normalizer::config::NormalizerConfig;
use cache_key_normalizer::{
    collect_vary_headers, config_error_actions, config_state, plan_request_headers,
    RequestFacts,
};

fn facts(method: Option<&str>, path: Option<&str>, host: Option<&str>) -> RequestFacts {
    RequestFacts {
        method: method.map(|s| s.to_string()),
        path: path.map(|s| s.to_string()),
        host: host.map(|s| s.to_string()),
        vary_values: Vec::new(),
    }
}

fn header_pairs(actions: &cache_key_normalizer::FilterActions) -> Vec<(&str, &str)> {
    actions
        .set_headers
        .iter()
        .map(|(n, v)| (n.as_str(), v.as_str()))
        .collect()
}

#[test]
fn rewrite_mode_sets_path_and_host_when_changed() {
    let config = NormalizerConfig::default();
    let actions = plan_request_headers(
        &config,
        &facts(Some("GET"), Some("/a//b?utm_x=1&b=2&a=1"), Some("Example.TEST:443")),
    );
    assert!(actions.count_rewrite);
    assert!(!actions.count_report);
    assert!(!actions.count_config_error);
    assert_eq!(actions.set_path.as_deref(), Some("/a/b?a=1&b=2"));
    assert_eq!(actions.set_host.as_deref(), Some("example.test"));
    assert_eq!(
        header_pairs(&actions),
        vec![
            ("x-cache-key-normalized", "true"),
            ("x-cache-key", "GET example.test/a/b?a=1&b=2"),
        ]
    );
}

#[test]
fn rewrite_mode_leaves_unchanged_request_alone() {
    let config = NormalizerConfig::default();
    let actions = plan_request_headers(&config, &facts(Some("GET"), Some("/a"), Some("h")));
    assert!(!actions.count_rewrite);
    assert_eq!(actions.set_path, None);
    assert_eq!(actions.set_host, None);
    assert_eq!(
        header_pairs(&actions),
        vec![("x-cache-key-normalized", "false"), ("x-cache-key", "GET h/a")]
    );
}

#[test]
fn report_mode_only_emits_headers() {
    let config = NormalizerConfig {
        mode: "report".to_string(),
        ..NormalizerConfig::default()
    };
    let actions = plan_request_headers(&config, &facts(Some("GET"), Some("/a//b"), Some("H")));
    assert!(actions.count_report);
    assert!(!actions.count_rewrite);
    assert_eq!(actions.set_path, None);
    assert_eq!(actions.set_host, None);
    assert_eq!(
        header_pairs(&actions),
        vec![("x-cache-key-normalized", "true"), ("x-cache-key", "GET h/a/b")]
    );
}

#[test]
fn missing_properties_take_defaults() {
    let config = NormalizerConfig::default();
    let actions = plan_request_headers(&config, &facts(None, None, None));
    assert!(!actions.count_rewrite);
    assert_eq!(
        header_pairs(&actions),
        vec![("x-cache-key-normalized", "false"), ("x-cache-key", "GET /")]
    );
}

#[test]
fn empty_normalized_host_is_not_written() {
    let config = NormalizerConfig::default();
    let actions = plan_request_headers(&config, &facts(None, Some("/a/"), Some("  ")));
    assert!(actions.count_rewrite);
    assert_eq!(actions.set_path.as_deref(), Some("/a/"));
    assert_eq!(actions.set_host, None);
}

#[test]
fn headers_can_be_disabled() {
    let config = NormalizerConfig {
        emit_headers: false,
        cache_key_header: "x-other".to_string(),
        ..NormalizerConfig::default()
    };
    let actions = plan_request_headers(&config, &facts(Some("GET"), Some("/A//"), Some("h")));
    assert!(actions.set_headers.is_empty());
    assert_eq!(actions.set_path.as_deref(), Some("/A/"));
}

#[test]
fn custom_header_names_and_vary_values() {
    let config = NormalizerConfig {
        vary_headers: vec!["accept-language".to_string(), "x-device".to_string()],
        cache_key_header: "x-key".to_string(),
        normalized_header: "x-norm".to_string(),
        ..NormalizerConfig::default()
    };
    let mut f = facts(Some("head"), Some("/"), Some("h"));
    f.vary_values = vec![None, Some(" Mobile  App ".to_string())];
    let actions = plan_request_headers(&config, &f);
    assert_eq!(
        header_pairs(&actions),
        vec![("x-norm", "false"), ("x-key", "HEAD h/\nx-device:Mobile App")]
    );
}

#[test]
fn collects_only_present_vary_headers() {
    let names = vec!["a".to_string(), "b".to_string(), "c".to_string()];
    let values = vec![Some("1".to_string()), None, Some("3".to_string())];
    assert_eq!(
        collect_vary_headers(&names, &values),
        vec![
            ("a".to_string(), "1".to_string()),
            ("c".to_string(), "3".to_string())
        ]
    );
    let extra = vec![None, None, None, Some("4".to_string())];
    assert!(collect_vary_headers(&names, &extra).is_empty());
}

#[test]
fn refused_configuration_reports_error() {
    let state = config_state(Err("invalid-config: boom".to_string()));
    assert_eq!(state.config, NormalizerConfig::default());
    assert_eq!(state.error.as_deref(), Some("invalid-config: boom"));
    let actions = config_error_actions(state.error.as_ref().unwrap());
    assert!(actions.count_config_error);
    assert!(!actions.count_rewrite && !actions.count_report);
    assert_eq!(
        header_pairs(&actions),
        vec![("x-cache-key-normalizer-error", "invalid-config: boom")]
    );
    assert_eq!(actions.set_path, None);
}

#[test]
fn accepted_configuration_is_kept() {
    let config = NormalizerConfig {
        sort_query: false,
        ..NormalizerConfig::default()
    };
    let state = config_state(Ok(config.clone()));
    assert_eq!(state.config, config);
    assert!(state.error.is_none());
}
