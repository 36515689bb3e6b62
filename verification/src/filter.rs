//! The decisions of the request filter: which configuration it runs with, and
//! for each request which headers and properties it sets and which counters it
//! bumps. The host reads and writes stay with the caller, which hands the
//! values it read to [`plan_request_headers`] and performs what comes back.
use vstd::prelude::*;

use crate::config::{default_model, ConfigModel, NormalizerConfig};
use crate::normalizer::{cache_key, normalize_request, normalized_host, normalized_url};
use crate::text::eq_ignore_ascii_case;

verus! {

/// The header that carries the reason a configuration was refused.
pub open spec fn config_error_header() -> Seq<char> {
    "x-cache-key-normalizer-error"@
}

/// The configuration in force, and the reason the last one given was refused.
pub struct ConfigState {
    pub config: NormalizerConfig,
    pub error: Option<String>,
}

impl Default for ConfigState {
    fn default() -> (s: Self)
        ensures
            s.config@ == default_model(),
            s.error is None,
    {
        ConfigState { config: NormalizerConfig::default(), error: None }
    }
}

/// The state after a configuration has been read: the configuration itself,
/// or the defaults together with the error it was refused with.
pub fn config_state(parsed: Result<NormalizerConfig, String>) -> (s: ConfigState)
    ensures
        match parsed {
            Ok(c) => s.config == c && s.error is None,
            Err(e) => s.config@ == default_model() && s.error == Some(e),
        },
{
    match parsed {
        Ok(config) => ConfigState { config, error: None },
        Err(error) => ConfigState { config: NormalizerConfig::default(), error: Some(error) },
    }
}

/// What the filter read from the host for one request.
pub struct RequestFacts {
    /// The `request.method` property, if it was present and valid UTF-8.
    pub method: Option<String>,
    /// The `request.path` property (path and query), likewise.
    pub path: Option<String>,
    /// The `host` request header, else the `request.host` property.
    pub host: Option<String>,
    /// The value of each configured vary header, in the configured order.
    pub vary_values: Vec<Option<String>>,
}

pub struct FactsModel {
    pub method: Option<Seq<char>>,
    pub path: Option<Seq<char>>,
    pub host: Option<Seq<char>>,
    pub vary_values: Seq<Option<Seq<char>>>,
}

impl View for RequestFacts {
    type V = FactsModel;

    open spec fn view(&self) -> FactsModel {
        FactsModel {
            method: self.method.deep_view(),
            path: self.path.deep_view(),
            host: self.host.deep_view(),
            vary_values: self.vary_values.deep_view(),
        }
    }
}

/// What the filter does to one request, besides counting it.
pub struct FilterActions {
    pub count_config_error: bool,
    pub count_report: bool,
    pub count_rewrite: bool,
    /// Request headers to set, in order: name and value.
    pub set_headers: Vec<(String, String)>,
    /// New value of the `request.path` property.
    pub set_path: Option<String>,
    /// New value of the `request.host` property.
    pub set_host: Option<String>,
}

pub struct ActionsModel {
    pub count_config_error: bool,
    pub count_report: bool,
    pub count_rewrite: bool,
    pub set_headers: Seq<(Seq<char>, Seq<char>)>,
    pub set_path: Option<Seq<char>>,
    pub set_host: Option<Seq<char>>,
}

impl View for FilterActions {
    type V = ActionsModel;

    open spec fn view(&self) -> ActionsModel {
        ActionsModel {
            count_config_error: self.count_config_error,
            count_report: self.count_report,
            count_rewrite: self.count_rewrite,
            set_headers: self.set_headers.deep_view(),
            set_path: self.set_path.deep_view(),
            set_host: self.set_host.deep_view(),
        }
    }
}

/// The configured vary headers that the request carries, each with its value,
/// in the configured order.
pub open spec fn vary_pairs(names: Seq<Seq<char>>, values: Seq<Option<Seq<char>>>) -> Seq<
    (Seq<char>, Seq<char>),
>
    decreases values.len(),
{
    if values.len() == 0 {
        Seq::empty()
    } else {
        let rest = vary_pairs(names, values.drop_last());
        let i = values.len() - 1;
        match values.last() {
            Some(v) => if i < names.len() {
                rest.push((names[i], v))
            } else {
                rest
            },
            None => rest,
        }
    }
}

/// What the filter does while the configuration is refused: count it and
/// report the reason in a request header.
pub open spec fn config_error_model(error: Seq<char>) -> ActionsModel {
    ActionsModel {
        count_config_error: true,
        count_report: false,
        count_rewrite: false,
        set_headers: seq![(config_error_header(), error)],
        set_path: None,
        set_host: None,
    }
}

pub open spec fn method_or_default(f: FactsModel) -> Seq<char> {
    match f.method {
        Some(m) => m,
        None => "GET"@,
    }
}

pub open spec fn path_or_default(f: FactsModel) -> Seq<char> {
    match f.path {
        Some(p) => p,
        None => "/"@,
    }
}

pub open spec fn host_or_default(f: FactsModel) -> Seq<char> {
    match f.host {
        Some(h) => h,
        None => Seq::empty(),
    }
}

/// What the filter does to a request under a valid configuration: it
/// normalizes Host and URL; emits the normalized flag and the cache-key hint
/// when asked to; in report mode only counts the report; otherwise, when Host
/// or URL changed, counts a rewrite and sets the path and (if not empty) the
/// host.
pub open spec fn planned_actions(c: ConfigModel, f: FactsModel) -> ActionsModel {
    let method = method_or_default(f);
    let url = path_or_default(f);
    let host = host_or_default(f);
    let nh = normalized_host(host, c);
    let nu = normalized_url(url, c);
    let key = cache_key(method, nh, nu, vary_pairs(c.vary_headers, f.vary_values));
    let changed = nh != host || nu != url;
    let headers = if c.emit_headers {
        seq![
            (c.normalized_header, if changed {
                "true"@
            } else {
                "false"@
            }),
            (c.cache_key_header, key),
        ]
    } else {
        Seq::empty()
    };
    if eq_ignore_ascii_case(c.mode, "report"@) {
        ActionsModel {
            count_config_error: false,
            count_report: true,
            count_rewrite: false,
            set_headers: headers,
            set_path: None,
            set_host: None,
        }
    } else if changed {
        ActionsModel {
            count_config_error: false,
            count_report: false,
            count_rewrite: true,
            set_headers: headers,
            set_path: Some(nu),
            set_host: if nh.len() > 0 {
                Some(nh)
            } else {
                None
            },
        }
    } else {
        ActionsModel {
            count_config_error: false,
            count_report: false,
            count_rewrite: false,
            set_headers: headers,
            set_path: None,
            set_host: None,
        }
    }
}

/// The configured vary headers that have a value, paired with it.
pub fn collect_vary_headers(names: &Vec<String>, values: &Vec<Option<String>>) -> (r: Vec<
    (String, String),
>)
    ensures
        r.deep_view() == vary_pairs(names.deep_view(), values.deep_view()),
{
    let mut r: Vec<(String, String)> = Vec::new();
    for i in 0..values.len()
        invariant
            r.deep_view() == vary_pairs(names.deep_view(), values.deep_view().take(i as int)),
    {
        let ghost before = r.deep_view();
        let ghost vd = values.deep_view();
        assert(vd.take(i + 1).drop_last() =~= vd.take(i as int));
        assert(vd.take(i + 1).last() == vd[i as int]);
        match &values[i] {
            Some(v) => {
                if i < names.len() {
                    let pair = (names[i].clone(), v.clone());
                    r.push(pair);
                    assert(r.deep_view() =~= before.push((names.deep_view()[i as int], v@)));
                }
            },
            None => {},
        }
    }
    assert(values.deep_view().take(values@.len() as int) =~= values.deep_view());
    r
}

/// What to do while the configuration is refused.
pub fn config_error_actions(error: &String) -> (r: FilterActions)
    ensures
        r@ == config_error_model(error@),
{
    let mut headers: Vec<(String, String)> = Vec::new();
    headers.push(("x-cache-key-normalizer-error".to_owned(), error.clone()));
    let r = FilterActions {
        count_config_error: true,
        count_report: false,
        count_rewrite: false,
        set_headers: headers,
        set_path: None,
        set_host: None,
    };
    assert(r@.set_headers =~= seq![(config_error_header(), error@)]);
    r
}

/// What to do with a request under a valid configuration, given what was
/// read from the host.
pub fn plan_request_headers(config: &NormalizerConfig, facts: &RequestFacts) -> (r: FilterActions)
    ensures
        r@ == planned_actions(config@, facts@),
{
    let method: &str = match &facts.method {
        Some(m) => m.as_str(),
        None => "GET",
    };
    let url: &str = match &facts.path {
        Some(p) => p.as_str(),
        None => "/",
    };
    let host: &str = match &facts.host {
        Some(h) => h.as_str(),
        None => "",
    };
    proof {
        reveal_strlit("");
    }
    assert(method@ == method_or_default(facts@));
    assert(url@ == path_or_default(facts@));
    assert(host@ == host_or_default(facts@));
    let vary = collect_vary_headers(&config.vary_headers, &facts.vary_values);
    let vs = vary.as_slice();
    assert(vs.deep_view() =~= vary.deep_view());
    let normalized = normalize_request(method, url, host, vs, config);
    let mut headers: Vec<(String, String)> = Vec::new();
    if config.emit_headers {
        let flag = if normalized.changed {
            "true".to_owned()
        } else {
            "false".to_owned()
        };
        headers.push((config.normalized_header.clone(), flag));
        headers.push((config.cache_key_header.clone(), normalized.cache_key.clone()));
    }
    let ghost hv = headers.deep_view();
    assert(hv =~= planned_actions(config@, facts@).set_headers);
    if config.is_report_mode() {
        return FilterActions {
            count_config_error: false,
            count_report: true,
            count_rewrite: false,
            set_headers: headers,
            set_path: None,
            set_host: None,
        };
    }
    if normalized.changed {
        let set_host = if !normalized.host.as_str().is_empty() {
            Some(normalized.host.clone())
        } else {
            None
        };
        FilterActions {
            count_config_error: false,
            count_report: false,
            count_rewrite: true,
            set_headers: headers,
            set_path: Some(normalized.url),
            set_host,
        }
    } else {
        FilterActions {
            count_config_error: false,
            count_report: false,
            count_rewrite: false,
            set_headers: headers,
            set_path: None,
            set_host: None,
        }
    }
}

} // verus!
