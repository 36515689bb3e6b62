//! Cache-key normalization for HTTP requests: host, path and query
//! canonicalization, the cache-key hint, and the per-request decisions of the
//! filter that runs it.
pub mod config;
pub mod filter;
pub mod laws;
pub mod normalizer;
pub mod text;

pub use config::{parse_config, validate_config, NormalizerConfig};
pub use filter::{
    collect_vary_headers, config_error_actions, config_state, plan_request_headers, ConfigState,
    FilterActions, RequestFacts,
};
pub use normalizer::{
    normalize_host, normalize_path, normalize_query, normalize_request, normalize_url,
    NormalizedRequest,
};
