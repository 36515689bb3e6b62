//! Normalization of the cache-relevant parts of a request: the Host, the path,
//! the query string, and the cache-key hint built from them.
use vstd::prelude::*;

use crate::config::{ConfigModel, NormalizerConfig};
use crate::text::{
    append_chars, chars_eq, chars_of, chars_of_all, contains_chars, ends_with_chars,
    char_is, has_prefix_in, join, join_chars, lemma_split_by_len, lower_chars, lower_seq, split_chars_on, split_on,
    split_once, split_once_chars, string_of, sub_chars, trim, trim_chars, upper_chars, upper_seq,
    words, words_of,
};

verus! {

/// What normalization made of a request.
#[derive(Clone, Debug, PartialEq, Eq)]
pub struct NormalizedRequest {
    pub url: String,
    pub host: String,
    pub cache_key: String,
    /// Whether the URL or the Host differs from what the request carried.
    pub changed: bool,
}

// ---------------------------------------------------------------------------
// Host
// ---------------------------------------------------------------------------

/// The Host trimmed, lower-cased and stripped of a default port (`:80`, else
/// `:443`), each step as the configuration asks.
pub open spec fn normalized_host(host: Seq<char>, c: ConfigModel) -> Seq<char> {
    let t = trim(host);
    let l = if c.lowercase_host {
        lower_seq(t)
    } else {
        t
    };
    if c.strip_default_port && ":80"@.is_suffix_of(l) {
        l.take(l.len() - 3)
    } else if c.strip_default_port && ":443"@.is_suffix_of(l) {
        l.take(l.len() - 4)
    } else {
        l
    }
}

// ---------------------------------------------------------------------------
// Path
// ---------------------------------------------------------------------------

pub open spec fn is_dot(p: Seq<char>) -> bool {
    p == seq!['.']
}

pub open spec fn is_dot_dot(p: Seq<char>) -> bool {
    p == seq!['.', '.']
}

/// The segments left once empty and `.` segments are dropped and each `..`
/// removes the segment before it (if any).
pub open spec fn resolve_segments(parts: Seq<Seq<char>>) -> Seq<Seq<char>>
    decreases parts.len(),
{
    if parts.len() == 0 {
        Seq::empty()
    } else {
        let stack = resolve_segments(parts.drop_last());
        let p = parts.last();
        if p.len() == 0 || is_dot(p) {
            stack
        } else if is_dot_dot(p) {
            if stack.len() > 0 {
                stack.drop_last()
            } else {
                stack
            }
        } else {
            stack.push(p)
        }
    }
}

/// Whether the pieces of a path name a directory: the last piece is empty
/// (the path ends in `/`), `.` or `..`.
pub open spec fn ends_in_directory(parts: Seq<Seq<char>>) -> bool {
    &&& parts.len() > 0
    &&& (parts.last().len() == 0 || is_dot(parts.last()) || is_dot_dot(parts.last()))
}

/// `/`, the segments joined with `/`, and a trailing `/` when asked for and
/// there is a segment for it to follow.
pub open spec fn path_form(segs: Seq<Seq<char>>, trailing: bool) -> Seq<char> {
    seq!['/'] + join(segs, seq!['/']) + if trailing && segs.len() > 0 {
        seq!['/']
    } else {
        Seq::empty()
    }
}

/// The resolved segments of `path` after a `/`, joined with `/`; a path that
/// names a directory (ends in `/`, `.` or `..`) keeps a trailing `/` after
/// its last remaining segment.
pub open spec fn normalized_path(path: Seq<char>) -> Seq<char> {
    let parts = split_on(path, '/');
    path_form(resolve_segments(parts), ends_in_directory(parts))
}

/// The path with trailing slashes removed, keeping at least one character.
pub open spec fn strip_trailing_slashes(p: Seq<char>) -> Seq<char>
    decreases p.len(),
{
    if p.len() > 1 && p.last() == '/' {
        strip_trailing_slashes(p.drop_last())
    } else {
        p
    }
}

/// The trailing-slash policy: `strip` removes trailing slashes (keeping at
/// least one character), `add` appends one where there is none, anything else
/// leaves the path as it is.
pub open spec fn with_trailing_slash_policy(path: Seq<char>, mode: Seq<char>) -> Seq<char> {
    if mode == "strip"@ {
        strip_trailing_slashes(path)
    } else if mode == "add"@ && !(path.len() > 0 && path.last() == '/') {
        path.push('/')
    } else {
        path
    }
}

// ---------------------------------------------------------------------------
// Query
// ---------------------------------------------------------------------------

/// The name and value of a query pair: the text around its first `=`, or the
/// whole pair and an empty value where it has none.
pub open spec fn query_pair(pair: Seq<char>) -> (Seq<char>, Seq<char>) {
    match split_once(pair, '=') {
        Some(nv) => nv,
        None => (pair, Seq::empty()),
    }
}

/// Whether a parameter of this name survives the allowlist, the removal list
/// and the removal prefixes.
pub open spec fn keeps_param(name: Seq<char>, c: ConfigModel) -> bool {
    &&& (c.keep_query_params.len() == 0 || c.keep_query_params.contains(name))
    &&& !c.remove_query_params.contains(name)
    &&& !(exists|k: int|
        0 <= k < c.remove_query_prefixes.len() && (#[trigger] c.remove_query_prefixes[k]).is_prefix_of(
            name,
        ))
}

/// The non-empty pairs whose names survive [`keeps_param`], in order.
pub open spec fn kept_params(raws: Seq<Seq<char>>, c: ConfigModel) -> Seq<Seq<char>>
    decreases raws.len(),
{
    if raws.len() == 0 {
        Seq::empty()
    } else {
        let rest = kept_params(raws.drop_last(), c);
        let raw = raws.last();
        if raw.len() > 0 && keeps_param(query_pair(raw).0, c) {
            rest.push(raw)
        } else {
            rest
        }
    }
}

/// Strict lexicographic order of character sequences by code point, the
/// order `str::cmp` gives.
pub open spec fn lex_lt(a: Seq<char>, b: Seq<char>) -> bool
    decreases a.len(),
{
    if a.len() == 0 {
        b.len() > 0
    } else if b.len() == 0 {
        false
    } else if a[0] != b[0] {
        a[0] < b[0]
    } else {
        lex_lt(a.drop_first(), b.drop_first())
    }
}

/// Whether pair `a` sorts after pair `b`: by name, then by value.
pub open spec fn pair_after(a: Seq<char>, b: Seq<char>) -> bool {
    let (an, av) = query_pair(a);
    let (bn, bv) = query_pair(b);
    lex_lt(bn, an) || (an == bn && lex_lt(bv, av))
}

/// `x` inserted into `sorted` after every element that does not sort after it.
pub open spec fn insert_sorted(sorted: Seq<Seq<char>>, x: Seq<char>) -> Seq<Seq<char>>
    decreases sorted.len(),
{
    if sorted.len() == 0 {
        seq![x]
    } else if pair_after(sorted.last(), x) {
        insert_sorted(sorted.drop_last(), x).push(sorted.last())
    } else {
        sorted.push(x)
    }
}

/// The stable sort of the pairs by name, then value.
pub open spec fn sort_params(s: Seq<Seq<char>>) -> Seq<Seq<char>>
    decreases s.len(),
{
    if s.len() == 0 {
        Seq::empty()
    } else {
        insert_sorted(sort_params(s.drop_last()), s.last())
    }
}

/// The query string with the unwanted and empty pairs removed and, when the
/// configuration asks, the rest sorted, joined again with `&`.
pub open spec fn normalized_query(query: Seq<char>, c: ConfigModel) -> Seq<char> {
    let kept = kept_params(split_on(query, '&'), c);
    join(
        if c.sort_query {
            sort_params(kept)
        } else {
            kept
        },
        seq!['&'],
    )
}

// ---------------------------------------------------------------------------
// URL
// ---------------------------------------------------------------------------

/// The path and the query of a URL: the text around its first `?`.
pub open spec fn url_parts(url: Seq<char>) -> (Seq<char>, Seq<char>) {
    match split_once(url, '?') {
        Some(pq) => pq,
        None => (url, Seq::empty()),
    }
}

/// The path after path normalization, lower-casing and the trailing-slash
/// policy, each as the configuration asks.
pub open spec fn normalized_url_path(path: Seq<char>, c: ConfigModel) -> Seq<char> {
    let p1 = if c.normalize_path {
        normalized_path(path)
    } else {
        path
    };
    let p2 = if c.lowercase_path {
        lower_seq(p1)
    } else {
        p1
    };
    with_trailing_slash_policy(p2, c.trailing_slash)
}

/// The normalized path, then `?` and the normalized query unless that is empty.
pub open spec fn normalized_url(url: Seq<char>, c: ConfigModel) -> Seq<char> {
    let (path, query) = url_parts(url);
    let p = normalized_url_path(path, c);
    let q = normalized_query(query, c);
    if q.len() == 0 {
        p
    } else {
        p + seq!['?'] + q
    }
}

// ---------------------------------------------------------------------------
// Cache key
// ---------------------------------------------------------------------------

/// A header value with its white-space runs collapsed to single spaces and
/// trimmed.
pub open spec fn header_value(v: Seq<char>) -> Seq<char> {
    join(words(v), seq![' '])
}

/// One line per vary header: `\n`, the trimmed lower-cased name, `:`, the
/// collapsed value.
pub open spec fn vary_lines(vary: Seq<(Seq<char>, Seq<char>)>) -> Seq<char>
    decreases vary.len(),
{
    if vary.len() == 0 {
        Seq::empty()
    } else {
        vary_lines(vary.drop_last()) + seq!['\n'] + lower_seq(trim(vary.last().0)) + seq![':']
            + header_value(vary.last().1)
    }
}

/// `<METHOD> <host><url>`, then the vary-header lines.
pub open spec fn cache_key(
    method: Seq<char>,
    host: Seq<char>,
    url: Seq<char>,
    vary: Seq<(Seq<char>, Seq<char>)>,
) -> Seq<char> {
    upper_seq(trim(method)) + seq![' '] + host + url + vary_lines(vary)
}


// ---------------------------------------------------------------------------
// Query: executable
// ---------------------------------------------------------------------------

/// `a < b` in the order of [`lex_lt`].
fn lex_less(a: &Vec<char>, b: &Vec<char>) -> (r: bool)
    ensures
        r == lex_lt(a@, b@),
{
    let mut i: usize = 0;
    assert(a@.skip(0) =~= a@);
    assert(b@.skip(0) =~= b@);
    while i < a.len() && i < b.len() && a[i] == b[i]
        invariant
            i <= a@.len(),
            i <= b@.len(),
            lex_lt(a@, b@) == lex_lt(a@.skip(i as int), b@.skip(i as int)),
        decreases a@.len() - i,
    {
        assert(a@.skip(i as int).drop_first() =~= a@.skip(i + 1));
        assert(b@.skip(i as int).drop_first() =~= b@.skip(i + 1));
        i = i + 1;
    }
    if i == a.len() {
        i < b.len()
    } else if i == b.len() {
        false
    } else {
        a[i] < b[i]
    }
}

/// The name and value of a query pair, as `split_once('=')` with the whole
/// pair and an empty value as fallback.
fn split_query_pair(pair: &Vec<char>) -> (r: (Vec<char>, Vec<char>))
    ensures
        (r.0@, r.1@) == query_pair(pair@),
{
    match split_once_chars(pair, '=') {
        Some(nv) => nv,
        None => (sub_chars(pair, 0, pair.len()), Vec::new()),
    }
}

fn param_after(a: &Vec<char>, b: &Vec<char>) -> (r: bool)
    ensures
        r == pair_after(a@, b@),
{
    let (an, av) = split_query_pair(a);
    let (bn, bv) = split_query_pair(b);
    lex_less(&bn, &an) || (chars_eq(&an, &bn) && lex_less(&bv, &av))
}

fn insert_param(sorted: &mut Vec<Vec<char>>, x: Vec<char>)
    ensures
        final(sorted).deep_view() == insert_sorted(old(sorted).deep_view(), x@),
{
    let ghost s = sorted.deep_view();
    let mut j: usize = sorted.len();
    assert(s.take(j as int) =~= s);
    assert(s.skip(j as int) =~= Seq::<Seq<char>>::empty());
    while j > 0 && param_after(&sorted[j - 1], &x)
        invariant
            j <= sorted@.len(),
            sorted.deep_view() == s,
            insert_sorted(s, x@) == insert_sorted(s.take(j as int), x@) + s.skip(j as int),
        decreases j,
    {
        assert(sorted[j - 1].deep_view() =~= sorted[j - 1]@);
        assert(s.take(j as int).drop_last() =~= s.take(j - 1));
        assert(s.take(j as int).last() == s[j - 1]);
        assert(seq![s[j - 1]] + s.skip(j as int) =~= s.skip(j - 1));
        assert(insert_sorted(s.take(j - 1), x@).push(s[j - 1]) + s.skip(j as int)
            =~= insert_sorted(s.take(j - 1), x@) + s.skip(j - 1));
        j = j - 1;
    }
    if j > 0 {
        assert(sorted[j - 1].deep_view() =~= sorted[j - 1]@);
        assert(s.take(j as int).last() == s[j - 1]);
    }
    assert(x.deep_view() =~= x@);
    let ghost xv = x@;
    sorted.insert(j, x);
    assert(sorted.deep_view() =~= s.insert(j as int, xv));
    assert(s.take(j as int).push(xv) + s.skip(j as int) =~= s.insert(j as int, xv));
}

/// The stable insertion sort of the pairs by name, then value.
fn sort_query_pairs(params: &Vec<Vec<char>>) -> (r: Vec<Vec<char>>)
    ensures
        r.deep_view() == sort_params(params.deep_view()),
{
    let mut sorted: Vec<Vec<char>> = Vec::new();
    for i in 0..params.len()
        invariant
            sorted.deep_view() == sort_params(params.deep_view().take(i as int)),
    {
        assert(params.deep_view().take(i + 1).drop_last() =~= params.deep_view().take(i as int));
        assert(params[i as int].deep_view() =~= params[i as int]@);
        let x = sub_chars(&params[i], 0, params[i].len());
        assert(x@ =~= params[i as int]@);
        insert_param(&mut sorted, x);
    }
    assert(params.deep_view().take(params.len() as int) =~= params.deep_view());
    sorted
}

/// The non-empty pairs whose names survive the allowlist, the removal list and
/// the removal prefixes.
fn filter_query_pairs(
    raws: &Vec<Vec<char>>,
    keep: &Vec<Vec<char>>,
    remove: &Vec<Vec<char>>,
    prefixes: &Vec<Vec<char>>,
    Ghost(c): Ghost<ConfigModel>,
) -> (r: Vec<Vec<char>>)
    requires
        keep.deep_view() == c.keep_query_params,
        remove.deep_view() == c.remove_query_params,
        prefixes.deep_view() == c.remove_query_prefixes,
    ensures
        r.deep_view() == kept_params(raws.deep_view(), c),
{
    let mut r: Vec<Vec<char>> = Vec::new();
    for i in 0..raws.len()
        invariant
            keep.deep_view() == c.keep_query_params,
            remove.deep_view() == c.remove_query_params,
            prefixes.deep_view() == c.remove_query_prefixes,
            r.deep_view() == kept_params(raws.deep_view().take(i as int), c),
    {
        assert(raws.deep_view().take(i + 1).drop_last() =~= raws.deep_view().take(i as int));
        assert(raws[i as int].deep_view() =~= raws[i as int]@);
        let raw = &raws[i];
        if raw.len() > 0 {
            let (name, _value) = split_query_pair(raw);
            let kept = (keep.len() == 0 || contains_chars(keep, &name)) && !contains_chars(
                remove,
                &name,
            ) && !has_prefix_in(prefixes, &name);
            if kept {
                let ghost before = r.deep_view();
                let x = sub_chars(raw, 0, raw.len());
                assert(x@ =~= raw@);
                assert(x.deep_view() =~= x@);
                r.push(x);
                assert(r.deep_view() =~= before.push(raws.deep_view()[i as int]));
            }
        }
    }
    assert(raws.deep_view().take(raws.len() as int) =~= raws.deep_view());
    r
}

fn normalize_query_chars(query: &Vec<char>, config: &NormalizerConfig) -> (r: Vec<char>)
    ensures
        r@ == normalized_query(query@, config@),
{
    if query.len() == 0 {
        let ghost c = config@;
        assert(split_on(query@, '&') =~= seq![Seq::<char>::empty()]);
        assert(seq![Seq::<char>::empty()].drop_last() =~= Seq::<Seq<char>>::empty());
        assert(kept_params(Seq::<Seq<char>>::empty(), c) =~= Seq::<Seq<char>>::empty());
        assert(kept_params(seq![Seq::<char>::empty()], c) =~= Seq::<Seq<char>>::empty());
        assert(sort_params(Seq::<Seq<char>>::empty()) =~= Seq::<Seq<char>>::empty());
        return Vec::new();
    }
    let keep = chars_of_all(&config.keep_query_params);
    let remove = chars_of_all(&config.remove_query_params);
    let prefixes = chars_of_all(&config.remove_query_prefixes);
    let raws = split_chars_on(query, '&');
    let kept = filter_query_pairs(&raws, &keep, &remove, &prefixes, Ghost(config@));
    let amp = vec!['&'];
    assert(amp@ =~= seq!['&']);
    if config.sort_query {
        let sorted = sort_query_pairs(&kept);
        join_chars(&sorted, &amp)
    } else {
        join_chars(&kept, &amp)
    }
}

/// Removes unwanted and empty query pairs and, when the configuration asks,
/// sorts the rest by name and then value (keeping the order of equal ones),
/// joined again with `&`.
pub fn normalize_query(query: &str, config: &NormalizerConfig) -> (r: String)
    ensures
        r@ == normalized_query(query@, config@),
{
    let q = chars_of(query);
    let n = normalize_query_chars(&q, config);
    string_of(&n)
}


// ---------------------------------------------------------------------------
// Host, path and URL: executable
// ---------------------------------------------------------------------------

fn normalize_host_chars(host: &Vec<char>, config: &NormalizerConfig) -> (r: Vec<char>)
    ensures
        r@ == normalized_host(host@, config@),
{
    let mut normalized = trim_chars(host);
    if config.lowercase_host {
        normalized = lower_chars(&normalized);
    }
    if config.strip_default_port {
        let http = chars_of(":80");
        let https = chars_of(":443");
        if ends_with_chars(&normalized, &http) {
            proof {
                reveal_strlit(":80");
            }
            normalized = sub_chars(&normalized, 0, normalized.len() - 3);
        } else if ends_with_chars(&normalized, &https) {
            proof {
                reveal_strlit(":443");
            }
            normalized = sub_chars(&normalized, 0, normalized.len() - 4);
        }
    }
    normalized
}

/// Trims the Host and, as the configuration asks, lower-cases it (ASCII) and
/// strips a default port `:80`, or else `:443`.
pub fn normalize_host(host: &str, config: &NormalizerConfig) -> (r: String)
    ensures
        r@ == normalized_host(host@, config@),
{
    let h = chars_of(host);
    let n = normalize_host_chars(&h, config);
    string_of(&n)
}

fn normalize_path_chars(path: &Vec<char>) -> (r: Vec<char>)
    ensures
        r@ == normalized_path(path@),
{
    let parts = split_chars_on(path, '/');
    proof {
        lemma_split_by_len(path@, char_is('/'));
    }
    let mut stack: Vec<Vec<char>> = Vec::new();
    let mut directory = false;
    for i in 0..parts.len()
        invariant
            stack.deep_view() == resolve_segments(parts.deep_view().take(i as int)),
            i > 0 ==> directory == ends_in_directory(parts.deep_view().take(i as int)),
    {
        let ghost before = stack.deep_view();
        assert(parts.deep_view().take(i + 1).drop_last() =~= parts.deep_view().take(i as int));
        assert(parts[i as int].deep_view() =~= parts[i as int]@);
        let part = &parts[i];
        let is_dot = part.len() == 1 && part[0] == '.';
        let is_dot_dot = part.len() == 2 && part[0] == '.' && part[1] == '.';
        assert(is_dot == (part@ == seq!['.'])) by {
            if part@.len() == 1 && part@[0] == '.' {
                assert(part@ =~= seq!['.']);
            }
        }
        assert(is_dot_dot == (part@ == seq!['.', '.'])) by {
            if part@.len() == 2 && part@[0] == '.' && part@[1] == '.' {
                assert(part@ =~= seq!['.', '.']);
            }
        }
        directory = part.len() == 0 || is_dot || is_dot_dot;
        assert(parts.deep_view().take(i + 1).last() == parts.deep_view()[i as int]);
        if part.len() == 0 || is_dot {
        } else if is_dot_dot {
            stack.pop();
            assert(stack.deep_view() =~= if before.len() > 0 {
                before.drop_last()
            } else {
                before
            });
        } else {
            let x = sub_chars(part, 0, part.len());
            assert(x@ =~= part@);
            assert(x.deep_view() =~= x@);
            stack.push(x);
            assert(stack.deep_view() =~= before.push(parts.deep_view()[i as int]));
        }
    }
    assert(parts.deep_view().take(parts.len() as int) =~= parts.deep_view());
    let slash = vec!['/'];
    let joined = join_chars(&stack, &slash);
    assert(slash@ =~= seq!['/']);
    let mut normalized = vec!['/'];
    append_chars(&mut normalized, &joined);
    if directory && stack.len() > 0 {
        normalized.push('/');
    }
    assert(normalized@ =~= normalized_path(path@));
    normalized
}

/// Collapses repeated slashes and resolves `.` and `..` segments: `/`
/// followed by the remaining segments joined with `/`, with a trailing `/`
/// kept where the path names a directory and a segment remains.
pub fn normalize_path(path: &str) -> (r: String)
    ensures
        r@ == normalized_path(path@),
{
    let p = chars_of(path);
    let n = normalize_path_chars(&p);
    string_of(&n)
}

/// The path and the query of a URL, as `split_once('?')` with the whole URL
/// and an empty query as fallback.
fn split_url(url: &Vec<char>) -> (r: (Vec<char>, Vec<char>))
    ensures
        (r.0@, r.1@) == url_parts(url@),
{
    match split_once_chars(url, '?') {
        Some(pq) => pq,
        None => (sub_chars(url, 0, url.len()), Vec::new()),
    }
}

fn apply_trailing_slash(path: Vec<char>, mode: &Vec<char>) -> (r: Vec<char>)
    ensures
        r@ == with_trailing_slash_policy(path@, mode@),
{
    let mut path = path;
    let strip = chars_of("strip");
    let add = chars_of("add");
    proof {
        reveal_strlit("strip");
        reveal_strlit("add");
        assert("strip"@.len() != "add"@.len());
    }
    if chars_eq(mode, &strip) && path.len() > 1 {
        let ghost p0 = path@;
        while path.len() > 1 && path[path.len() - 1] == '/'
            invariant
                strip_trailing_slashes(p0) == strip_trailing_slashes(path@),
            decreases path@.len(),
        {
            path.pop();
        }
        path
    } else if chars_eq(mode, &add) && !(path.len() > 0 && path[path.len() - 1] == '/') {
        path.push('/');
        path
    } else {
        proof {
            if mode@ == "strip"@ {
                assert(strip_trailing_slashes(path@) == path@);
            }
        }
        path
    }
}

fn normalize_url_chars(url: &Vec<char>, config: &NormalizerConfig) -> (r: Vec<char>)
    ensures
        r@ == normalized_url(url@, config@),
{
    let (path, query) = split_url(url);
    let mut path = if config.normalize_path {
        normalize_path_chars(&path)
    } else {
        path
    };
    if config.lowercase_path {
        path = lower_chars(&path);
    }
    let mode = chars_of(config.trailing_slash.as_str());
    let mut path = apply_trailing_slash(path, &mode);
    let query = normalize_query_chars(&query, config);
    if query.len() == 0 {
        path
    } else {
        path.push('?');
        append_chars(&mut path, &query);
        path
    }
}

/// Normalizes the path and the query of a URL as the configuration asks; the
/// result is the path, then `?` and the query unless the query came out empty.
pub fn normalize_url(url: &str, config: &NormalizerConfig) -> (r: String)
    ensures
        r@ == normalized_url(url@, config@),
{
    let u = chars_of(url);
    let n = normalize_url_chars(&u, config);
    string_of(&n)
}

// ---------------------------------------------------------------------------
// Cache key and request: executable
// ---------------------------------------------------------------------------

/// White-space runs collapsed to single spaces, ends trimmed.
fn normalize_header_value(value: &Vec<char>) -> (r: Vec<char>)
    ensures
        r@ == header_value(value@),
{
    let w = words_of(value);
    let space = vec![' '];
    assert(space@ =~= seq![' ']);
    join_chars(&w, &space)
}

fn build_cache_key(
    method: &Vec<char>,
    host: &Vec<char>,
    url: &Vec<char>,
    vary_headers: &[(String, String)],
) -> (r: Vec<char>)
    ensures
        r@ == cache_key(method@, host@, url@, vary_headers.deep_view()),
{
    let m = trim_chars(method);
    let mut key = upper_chars(&m);
    key.push(' ');
    append_chars(&mut key, host);
    append_chars(&mut key, url);
    let ghost base = key@;
    assert(vary_headers.deep_view().take(0) =~= Seq::<(Seq<char>, Seq<char>)>::empty());
    for i in 0..vary_headers.len()
        invariant
            key@ == base + vary_lines(vary_headers.deep_view().take(i as int)),
            base == upper_seq(trim(method@)) + seq![' '] + host@ + url@,
    {
        let ghost before = key@;
        let ghost vd = vary_headers.deep_view();
        assert(vd.take(i + 1).drop_last() =~= vd.take(i as int));
        assert(vd[i as int] == (vary_headers@[i as int].0@, vary_headers@[i as int].1@));
        let name = chars_of(vary_headers[i].0.as_str());
        let value = chars_of(vary_headers[i].1.as_str());
        key.push('\n');
        let tn = trim_chars(&name);
        let ln = lower_chars(&tn);
        append_chars(&mut key, &ln);
        key.push(':');
        let hv = normalize_header_value(&value);
        append_chars(&mut key, &hv);
        assert(key@ =~= before + seq!['\n'] + lower_seq(trim(vd[i as int].0)) + seq![':']
            + header_value(vd[i as int].1));
        assert(key@ =~= base + vary_lines(vd.take(i + 1)));
    }
    assert(vary_headers.deep_view().take(vary_headers@.len() as int) =~= vary_headers.deep_view());
    key
}

/// Normalizes Host and URL, builds the cache-key hint from the method, the
/// normalized Host and URL and the vary headers, and tells whether Host or
/// URL changed.
pub fn normalize_request(
    method: &str,
    url: &str,
    host: &str,
    vary_headers: &[(String, String)],
    config: &NormalizerConfig,
) -> (r: NormalizedRequest)
    ensures
        r.host@ == normalized_host(host@, config@),
        r.url@ == normalized_url(url@, config@),
        r.cache_key@ == cache_key(method@, r.host@, r.url@, vary_headers.deep_view()),
        r.changed == (r.host@ != host@ || r.url@ != url@),
{
    let m = chars_of(method);
    let u = chars_of(url);
    let h = chars_of(host);
    let normalized_host = normalize_host_chars(&h, config);
    let normalized_url = normalize_url_chars(&u, config);
    let key = build_cache_key(&m, &normalized_host, &normalized_url, vary_headers);
    let changed = !chars_eq(&normalized_host, &h) || !chars_eq(&normalized_url, &u);
    NormalizedRequest {
        url: string_of(&normalized_url),
        host: string_of(&normalized_host),
        cache_key: string_of(&key),
        changed,
    }
}

} // verus!
