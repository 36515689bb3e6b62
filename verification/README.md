# cache-key-normalizer

A Proxy-Wasm request filter that normalizes the cache-relevant parts of an HTTP
request (Host, path, query) before the cache computes its hash, and emits a
normalized cache-key hint header. The normalization and the filter's decisions
are verified with Verus.

Layout:

- `src/text.rs` — a character-sequence model of the string operations used
  (trim, ASCII case, split, join, `split_once`, prefixes and suffixes) with
  verified implementations on `Vec<char>`.
- `src/config.rs` — `NormalizerConfig`, its defaults, report-mode test, the
  checks a decoded configuration must pass, and the reading of plugin
  configuration bytes (empty bytes mean the defaults).
- `src/normalizer.rs` — Host, path, query and URL normalization and the
  cache-key hint, each specified exactly over the model. Path normalization
  collapses slashes and resolves dot segments; a path that names a directory
  (ends in `/`, `.` or `..`) keeps a trailing `/`, which the `trailing_slash`
  policy then keeps, strips or adds.
- `src/filter.rs` — what the filter does with a request: which headers and
  properties to set and which counters to bump, from the values read from the
  host.
- `src/laws.rs` — properties proved for every input: clean and idempotent
  paths that keep a directory's trailing slash, filtered, sorted and idempotent queries, idempotent URLs, lower-cased
  hosts and paths, report mode never rewriting.
- `app/` — the Proxy-Wasm contexts, JSON decoding of the configuration, and the
  host calls around the library.
