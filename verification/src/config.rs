//! Filter configuration: its fields and defaults, the report-mode test, and
//! the checks a decoded configuration must pass.
use vstd::prelude::*;

use crate::text::{
    append_chars, chars_eq, chars_of, eq_ignore_ascii_case, eq_ignore_ascii_case_chars, string_of,
};

verus! {

/// How the filter normalizes requests. The field names are those of the JSON
/// configuration object; a field that the object leaves out takes the value
/// of [`NormalizerConfig::default`].
#[derive(Clone, Debug, PartialEq, Eq)]
pub struct NormalizerConfig {
    /// `rewrite` mutates request URL and Host; `report` only emits headers.
    pub mode: String,
    pub lowercase_host: bool,
    pub strip_default_port: bool,
    pub normalize_path: bool,
    pub lowercase_path: bool,
    pub sort_query: bool,
    /// Exact query parameter names to remove.
    pub remove_query_params: Vec<String>,
    /// Query parameter name prefixes to remove.
    pub remove_query_prefixes: Vec<String>,
    /// Optional allowlist: when not empty, every other parameter is dropped.
    pub keep_query_params: Vec<String>,
    /// `preserve`, `strip` or `add`.
    pub trailing_slash: String,
    /// Request headers appended to the cache-key hint.
    pub vary_headers: Vec<String>,
    /// Header that carries the cache-key hint.
    pub cache_key_header: String,
    /// Header telling whether URL or Host changed.
    pub normalized_header: String,
    pub emit_headers: bool,
}

/// The configuration with every string taken as its characters.
pub struct ConfigModel {
    pub mode: Seq<char>,
    pub lowercase_host: bool,
    pub strip_default_port: bool,
    pub normalize_path: bool,
    pub lowercase_path: bool,
    pub sort_query: bool,
    pub remove_query_params: Seq<Seq<char>>,
    pub remove_query_prefixes: Seq<Seq<char>>,
    pub keep_query_params: Seq<Seq<char>>,
    pub trailing_slash: Seq<char>,
    pub vary_headers: Seq<Seq<char>>,
    pub cache_key_header: Seq<char>,
    pub normalized_header: Seq<char>,
    pub emit_headers: bool,
}

impl View for NormalizerConfig {
    type V = ConfigModel;

    open spec fn view(&self) -> ConfigModel {
        ConfigModel {
            mode: self.mode@,
            lowercase_host: self.lowercase_host,
            strip_default_port: self.strip_default_port,
            normalize_path: self.normalize_path,
            lowercase_path: self.lowercase_path,
            sort_query: self.sort_query,
            remove_query_params: self.remove_query_params.deep_view(),
            remove_query_prefixes: self.remove_query_prefixes.deep_view(),
            keep_query_params: self.keep_query_params.deep_view(),
            trailing_slash: self.trailing_slash@,
            vary_headers: self.vary_headers.deep_view(),
            cache_key_header: self.cache_key_header@,
            normalized_header: self.normalized_header@,
            emit_headers: self.emit_headers,
        }
    }
}

/// The click identifiers removed by default.
pub open spec fn default_tracking_params_model() -> Seq<Seq<char>> {
    seq!["fbclid"@, "gclid"@, "msclkid"@, "yclid"@, "mc_cid"@, "mc_eid"@]
}

/// The configuration that an empty configuration, or an object with no
/// fields, stands for.
pub open spec fn default_model() -> ConfigModel {
    ConfigModel {
        mode: "rewrite"@,
        lowercase_host: true,
        strip_default_port: true,
        normalize_path: true,
        lowercase_path: false,
        sort_query: true,
        remove_query_params: default_tracking_params_model(),
        remove_query_prefixes: seq!["utm_"@],
        keep_query_params: Seq::empty(),
        trailing_slash: "preserve"@,
        vary_headers: Seq::empty(),
        cache_key_header: "x-cache-key"@,
        normalized_header: "x-cache-key-normalized"@,
        emit_headers: true,
    }
}

pub open spec fn valid_mode(mode: Seq<char>) -> bool {
    mode == "rewrite"@ || mode == "report"@
}

pub open spec fn valid_trailing_slash(t: Seq<char>) -> bool {
    t == "preserve"@ || t == "strip"@ || t == "add"@
}

/// The error a decoded configuration is refused with, if any: the mode is
/// checked before the trailing-slash policy.
pub open spec fn config_error(c: ConfigModel) -> Option<Seq<char>> {
    if !valid_mode(c.mode) {
        Some("invalid-config: mode must be rewrite or report"@)
    } else if !valid_trailing_slash(c.trailing_slash) {
        Some("invalid-config: trailing_slash must be preserve, strip, or add"@)
    } else {
        None
    }
}

fn default_mode() -> (s: String)
    ensures
        s@ == "rewrite"@,
{
    "rewrite".to_owned()
}

fn default_true() -> (b: bool)
    ensures
        b,
{
    true
}

fn default_trailing_slash() -> (s: String)
    ensures
        s@ == "preserve"@,
{
    "preserve".to_owned()
}

fn default_cache_key_header() -> (s: String)
    ensures
        s@ == "x-cache-key"@,
{
    "x-cache-key".to_owned()
}

fn default_normalized_header() -> (s: String)
    ensures
        s@ == "x-cache-key-normalized"@,
{
    "x-cache-key-normalized".to_owned()
}

fn default_tracking_prefixes() -> (v: Vec<String>)
    ensures
        v.deep_view() == seq!["utm_"@],
{
    let mut v: Vec<String> = Vec::new();
    v.push("utm_".to_owned());
    assert(v.deep_view() =~= seq!["utm_"@]);
    v
}

fn default_tracking_params() -> (v: Vec<String>)
    ensures
        v.deep_view() == default_tracking_params_model(),
{
    let mut v: Vec<String> = Vec::new();
    v.push("fbclid".to_owned());
    v.push("gclid".to_owned());
    v.push("msclkid".to_owned());
    v.push("yclid".to_owned());
    v.push("mc_cid".to_owned());
    v.push("mc_eid".to_owned());
    assert(v.deep_view() =~= default_tracking_params_model());
    v
}

impl Default for NormalizerConfig {
    fn default() -> (c: Self)
        ensures
            c@ == default_model(),
    {
        let c = NormalizerConfig {
            mode: default_mode(),
            lowercase_host: default_true(),
            strip_default_port: default_true(),
            normalize_path: default_true(),
            lowercase_path: false,
            sort_query: default_true(),
            remove_query_params: default_tracking_params(),
            remove_query_prefixes: default_tracking_prefixes(),
            keep_query_params: Vec::new(),
            trailing_slash: default_trailing_slash(),
            vary_headers: Vec::new(),
            cache_key_header: default_cache_key_header(),
            normalized_header: default_normalized_header(),
            emit_headers: default_true(),
        };
        assert(c.keep_query_params.deep_view() =~= Seq::<Seq<char>>::empty());
        assert(c.vary_headers.deep_view() =~= Seq::<Seq<char>>::empty());
        c
    }
}

impl NormalizerConfig {
    /// Whether the mode is `report`, in any ASCII case.
    pub fn is_report_mode(&self) -> (r: bool)
        ensures
            r == eq_ignore_ascii_case(self.mode@, "report"@),
    {
        let mode = chars_of(self.mode.as_str());
        let report = chars_of("report");
        eq_ignore_ascii_case_chars(&mode, &report)
    }
}

/// Accepts a decoded configuration whose mode and trailing-slash policy are
/// among the known values, and refuses it with the error of
/// [`config_error`] otherwise.
pub fn validate_config(config: NormalizerConfig) -> (r: Result<NormalizerConfig, String>)
    ensures
        match r {
            Ok(c) => c == config && config_error(config@) is None,
            Err(e) => config_error(config@) == Some(e@),
        },
{
    let mode = chars_of(config.mode.as_str());
    let rewrite = chars_of("rewrite");
    let report = chars_of("report");
    if !chars_eq(&mode, &rewrite) && !chars_eq(&mode, &report) {
        return Err("invalid-config: mode must be rewrite or report".to_owned());
    }
    let slash = chars_of(config.trailing_slash.as_str());
    let preserve = chars_of("preserve");
    let strip = chars_of("strip");
    let add = chars_of("add");
    if !chars_eq(&slash, &preserve) && !chars_eq(&slash, &strip) && !chars_eq(&slash, &add) {
        return Err("invalid-config: trailing_slash must be preserve, strip, or add".to_owned());
    }
    Ok(config)
}

/// The error for a configuration that does not decode: `invalid-config: `
/// followed by the decoder's message.
fn decode_error_message(detail: String) -> (r: String)
    ensures
        r@ == "invalid-config: "@ + detail@,
{
    let mut text = chars_of("invalid-config: ");
    let rest = chars_of(detail.as_str());
    append_chars(&mut text, &rest);
    string_of(&text)
}

/// Reads a plugin configuration: empty bytes stand for the defaults; other
/// bytes give the configuration that their JSON object decodes to, which must
/// pass [`validate_config`]. `decoded` is what decoding `data` gave: the
/// configuration, or the decoder's error message, which comes back after
/// `invalid-config: `.
pub fn parse_config(
    data: &[u8],
    decoded: Result<NormalizerConfig, String>,
) -> (r: Result<NormalizerConfig, String>)
    ensures
        data@.len() == 0 ==> match r {
            Ok(c) => c@ == default_model(),
            Err(_) => false,
        },
        data@.len() > 0 ==> match decoded {
            Err(e) => match r {
                Ok(_) => false,
                Err(re) => re@ == "invalid-config: "@ + e@,
            },
            Ok(d) => match r {
                Ok(c) => c == d && config_error(d@) is None,
                Err(re) => config_error(d@) == Some(re@),
            },
        },
{
    if data.len() == 0 {
        return Ok(NormalizerConfig::default());
    }
    match decoded {
        Err(e) => Err(decode_error_message(e)),
        Ok(d) => validate_config(d),
    }
}

} // verus!
