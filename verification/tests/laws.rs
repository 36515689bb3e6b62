use cache_key_normalizer::config::NormalizerConfig;
use cache_key_normalizer::filter::{plan_request_headers, RequestFacts};
use cache_key_normalizer::{normalize_host, normalize_path, normalize_query, normalize_url};

fn all_configs() -> Vec<NormalizerConfig> {
    let mut configs = Vec::new();
    for slash in ["preserve", "strip", "add"] {
        for normalize_path in [false, true] {
            for lowercase_path in [false, true] {
                for sort_query in [false, true] {
                    configs.push(NormalizerConfig {
                        trailing_slash: slash.to_string(),
                        normalize_path,
                        lowercase_path,
                        sort_query,
                        ..NormalizerConfig::default()
                    });
                }
            }
        }
    }
    configs
}

const URLS: [&str; 12] = [
    "",
    "/",
    "?",
    "//a//B/./../c/?z=1&a=2&&utm_x=3",
    "/A/B/",
    "A/..//",
    "/x?b=2&a=1&a&a=",
    "/Ä/ß?é=1&E=2",
    "/a/?q=1?r=2",
    "///",
    "/a/b?gclid=1",
    "/./../",
];

#[test]
fn normalize_url_is_idempotent() {
    for config in all_configs() {
        for url in URLS {
            let once = normalize_url(url, &config);
            let twice = normalize_url(&once, &config);
            assert_eq!(once, twice, "{url:?} with {config:?}");
        }
    }
}

#[test]
fn normalize_path_is_idempotent_and_clean() {
    for url in URLS {
        let once = normalize_path(url);
        assert_eq!(normalize_path(&once), once);
        assert!(once.starts_with('/'));
        assert!(!once.contains("//"));
        assert!(!once.split('/').any(|s| s == "." || s == ".."));
    }
}

#[test]
fn normalize_query_is_idempotent_sorted_and_filtered() {
    let config = NormalizerConfig::default();
    let query = "z=1&utm_source=x&b=2&&a=1&fbclid=9&a=0&b";
    let once = normalize_query(query, &config);
    assert_eq!(once, "a=0&a=1&b&b=2&z=1");
    assert_eq!(normalize_query(&once, &config), once);
    let mut input: Vec<&str> = query
        .split('&')
        .filter(|p| !p.is_empty() && !p.starts_with("utm_") && !p.starts_with("fbclid"))
        .collect();
    let mut output: Vec<&str> = once.split('&').collect();
    input.sort();
    output.sort();
    assert_eq!(input, output);
}

#[test]
fn lowercased_host_has_no_capitals() {
    let config = NormalizerConfig::default();
    let host = normalize_host(" WWW.Example.COM:80 ", &config);
    assert_eq!(host, "www.example.com");
    assert!(!host.chars().any(|c| c.is_ascii_uppercase()));
}

#[test]
fn lowercased_path_has_no_capitals_but_query_keeps_case() {
    let config = NormalizerConfig {
        lowercase_path: true,
        trailing_slash: "add".to_string(),
        ..NormalizerConfig::default()
    };
    assert_eq!(normalize_url("/A/B?K=V", &config), "/a/b/?K=V");
}

#[test]
fn report_mode_never_rewrites() {
    let config = NormalizerConfig {
        mode: "REPORT".to_string(),
        ..NormalizerConfig::default()
    };
    for url in URLS {
        let facts = RequestFacts {
            method: None,
            path: Some(url.to_string()),
            host: Some("EXAMPLE.test:80".to_string()),
            vary_values: Vec::new(),
        };
        let actions = plan_request_headers(&config, &facts);
        assert!(actions.count_report);
        assert!(!actions.count_rewrite);
        assert!(actions.set_path.is_none() && actions.set_host.is_none());
    }
}
