use cache_key_normalizer::config::NormalizerConfig;
use cache_key_normalizer::{
    normalize_host, normalize_path, normalize_query, normalize_request, normalize_url,
};

#[test]
fn removes_tracking_params_and_sorts_query() {
    let config = NormalizerConfig::default();
    let normalized = normalize_url("/item?utm_source=ad&b=2&a=1&gclid=x", &config);
    assert_eq!(normalized, "/item?a=1&b=2");
}

#[test]
fn normalizes_path_segments() {
    let config = NormalizerConfig {
        trailing_slash: "strip".to_string(),
        ..NormalizerConfig::default()
    };
    assert_eq!(normalize_url("/a//b/../c/./?z=1", &config), "/a/c?z=1");
}

#[test]
fn applies_keep_list_before_sorting() {
    let config = NormalizerConfig {
        keep_query_params: vec!["sku".to_string(), "page".to_string()],
        remove_query_params: Vec::new(),
        remove_query_prefixes: Vec::new(),
        ..NormalizerConfig::default()
    };
    assert_eq!(
        normalize_url("/search?debug=1&page=2&sku=abc", &config),
        "/search?page=2&sku=abc"
    );
}

#[test]
fn lowercases_host_and_strips_default_port() {
    let config = NormalizerConfig::default();
    assert_eq!(normalize_host("EXAMPLE.TEST:80", &config), "example.test");
    assert_eq!(
        normalize_host("EXAMPLE.TEST:8443", &config),
        "example.test:8443"
    );
}

#[test]
fn builds_cache_key_with_vary_headers() {
    let config = NormalizerConfig {
        vary_headers: vec!["accept-language".to_string()],
        ..NormalizerConfig::default()
    };
    let normalized = normalize_request(
        "get",
        "/item?b=2&a=1",
        "EXAMPLE.TEST:80",
        &[("accept-language".to_string(), " en-US,  en ".to_string())],
        &config,
    );
    assert_eq!(normalized.url, "/item?a=1&b=2");
    assert_eq!(
        normalized.cache_key,
        "GET example.test/item?a=1&b=2\naccept-language:en-US, en"
    );
}

#[test]
fn host_strips_443_and_trims() {
    let config = NormalizerConfig::default();
    assert_eq!(normalize_host("  Shop.Example:443\t", &config), "shop.example");
    assert_eq!(normalize_host("a:80:443", &config), "a:80");
    assert_eq!(normalize_host("a:443:80", &config), "a:443");
    assert_eq!(normalize_host("", &config), "");
    assert_eq!(normalize_host("\u{3000}Ä.TEST\u{a0}", &config), "Ä.test");
}

#[test]
fn host_options_off_keep_case_and_port() {
    let config = NormalizerConfig {
        lowercase_host: false,
        strip_default_port: false,
        ..NormalizerConfig::default()
    };
    assert_eq!(normalize_host(" Example.TEST:80 ", &config), "Example.TEST:80");
}

#[test]
fn path_resolves_dot_segments() {
    assert_eq!(normalize_path(""), "/");
    assert_eq!(normalize_path("/"), "/");
    assert_eq!(normalize_path("//"), "/");
    assert_eq!(normalize_path("/../a"), "/a");
    assert_eq!(normalize_path("a/b/"), "/a/b/");
    assert_eq!(normalize_path("/a/./b/../../c"), "/c");
    assert_eq!(normalize_path("/a/.../b"), "/a/.../b");
    assert_eq!(normalize_path("/é//ü/"), "/é/ü/");
}

#[test]
fn path_keeps_directory_slash() {
    assert_eq!(normalize_path("/docs/"), "/docs/");
    assert_eq!(normalize_path("/docs//"), "/docs/");
    assert_eq!(normalize_path("/docs"), "/docs");
    assert_eq!(normalize_path("/a/b/.."), "/a/");
    assert_eq!(normalize_path("/a/."), "/a/");
    assert_eq!(normalize_path("/a/.."), "/");
    assert_eq!(normalize_path("/a/../"), "/");
    assert_eq!(normalize_path("/./"), "/");
}

#[test]
fn default_config_preserves_trailing_slash() {
    let config = NormalizerConfig::default();
    assert_eq!(normalize_url("/docs/", &config), "/docs/");
    assert_eq!(normalize_url("/docs//?b=1", &config), "/docs/?b=1");
    assert_eq!(normalize_url("/docs", &config), "/docs");
}

#[test]
fn trailing_slash_policy_acts_on_kept_slash() {
    let strip = NormalizerConfig {
        trailing_slash: "strip".to_string(),
        ..NormalizerConfig::default()
    };
    assert_eq!(normalize_url("/docs/", &strip), "/docs");
    assert_eq!(normalize_url("/docs/.", &strip), "/docs");
    assert_eq!(normalize_url("/", &strip), "/");
    let add = NormalizerConfig {
        trailing_slash: "add".to_string(),
        ..NormalizerConfig::default()
    };
    assert_eq!(normalize_url("/docs", &add), "/docs/");
    assert_eq!(normalize_url("/docs/", &add), "/docs/");
    let preserve = NormalizerConfig::default();
    assert_eq!(normalize_url("/docs/", &preserve), "/docs/");
    assert_eq!(normalize_url("/docs", &preserve), "/docs");
}

#[test]
fn trailing_slash_policies() {
    let add = NormalizerConfig {
        trailing_slash: "add".to_string(),
        ..NormalizerConfig::default()
    };
    assert_eq!(normalize_url("/a/b", &add), "/a/b/");
    assert_eq!(normalize_url("/a/b/", &add), "/a/b/");
    assert_eq!(normalize_url("/", &add), "/");
    let strip = NormalizerConfig {
        trailing_slash: "strip".to_string(),
        normalize_path: false,
        ..NormalizerConfig::default()
    };
    assert_eq!(normalize_url("/a///", &strip), "/a");
    assert_eq!(normalize_url("///", &strip), "/");
    assert_eq!(normalize_url("/", &strip), "/");
    let add_raw = NormalizerConfig {
        trailing_slash: "add".to_string(),
        normalize_path: false,
        ..NormalizerConfig::default()
    };
    assert_eq!(normalize_url("", &add_raw), "/");
    let preserve = NormalizerConfig {
        normalize_path: false,
        ..NormalizerConfig::default()
    };
    assert_eq!(normalize_url("/a//", &preserve), "/a//");
}

#[test]
fn lowercase_path_is_ascii_only() {
    let config = NormalizerConfig {
        lowercase_path: true,
        ..NormalizerConfig::default()
    };
    assert_eq!(normalize_url("/A/Ä/B?X=Y", &config), "/a/Ä/b?X=Y");
}

#[test]
fn query_sort_is_stable_for_equal_keys() {
    let config = NormalizerConfig::default();
    assert_eq!(normalize_query("a=&b=1&a", &config), "a=&a&b=1");
    assert_eq!(normalize_query("a&b=1&a=", &config), "a&a=&b=1");
    assert_eq!(normalize_query("b=2&b=1&a=3&a=10", &config), "a=10&a=3&b=1&b=2");
    assert_eq!(normalize_query("x=1=2&x=1", &config), "x=1&x=1=2");
}

#[test]
fn query_keeps_order_when_not_sorting() {
    let config = NormalizerConfig {
        sort_query: false,
        ..NormalizerConfig::default()
    };
    assert_eq!(normalize_query("b=2&&a=1&fbclid=3", &config), "b=2&a=1");
}

#[test]
fn query_removes_params_and_prefixes() {
    let config = NormalizerConfig::default();
    assert_eq!(normalize_query("", &config), "");
    assert_eq!(normalize_query("&&", &config), "");
    assert_eq!(
        normalize_query("utm_campaign=x&utm=1&fbclid=2&yclid&mc_eid=5&q=ok", &config),
        "q=ok&utm=1"
    );
    let empty_prefix = NormalizerConfig {
        remove_query_prefixes: vec!["".to_string()],
        ..NormalizerConfig::default()
    };
    assert_eq!(normalize_query("a=1&b=2", &empty_prefix), "");
}

#[test]
fn query_sorting_orders_by_code_point() {
    let config = NormalizerConfig::default();
    assert_eq!(normalize_query("é=1&z=2&Z=3&a=4", &config), "Z=3&a=4&z=2&é=1");
}

#[test]
fn url_without_query_or_with_emptied_query() {
    let config = NormalizerConfig::default();
    assert_eq!(normalize_url("/x/?", &config), "/x/");
    assert_eq!(normalize_url("/x?gclid=1", &config), "/x");
    assert_eq!(normalize_url("/x?a=1?b=2", &config), "/x?a=1?b=2");
    assert_eq!(normalize_url("", &config), "/");
}

#[test]
fn request_reports_changes() {
    let config = NormalizerConfig::default();
    let same = normalize_request("GET", "/a?b=1", "example.test", &[], &config);
    assert!(!same.changed);
    assert_eq!(same.cache_key, "GET example.test/a?b=1");
    let host_changed = normalize_request(" post ", "/a", "Example.test", &[], &config);
    assert!(host_changed.changed);
    assert_eq!(host_changed.host, "example.test");
    assert_eq!(host_changed.cache_key, "POST example.test/a");
    let url_changed = normalize_request("GET", "/a/../b", "h", &[], &config);
    assert!(url_changed.changed);
    assert_eq!(url_changed.url, "/b");
}

#[test]
fn cache_key_lines_per_vary_header() {
    let config = NormalizerConfig::default();
    let r = normalize_request(
        "get",
        "/",
        "h",
        &[
            (" Accept ".to_string(), "text/html,\t application/json".to_string()),
            ("X-Empty".to_string(), " \u{2003} ".to_string()),
        ],
        &config,
    );
    assert_eq!(r.cache_key, "GET h/\naccept:text/html, application/json\nx-empty:");
}
