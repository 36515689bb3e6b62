//! Properties of normalization that hold for every input.
use vstd::prelude::*;

use crate::config::ConfigModel;
use crate::filter::{
    host_or_default, method_or_default, path_or_default, planned_actions, vary_pairs,
    FactsModel,
};
use crate::normalizer::{
    cache_key, vary_lines, insert_sorted, is_dot, is_dot_dot, keeps_param, kept_params, lex_lt,
    normalized_host, normalized_path, normalized_query, normalized_url, pair_after, query_pair,
    normalized_url_path, resolve_segments, sort_params, strip_trailing_slashes, url_parts,
    with_trailing_slash_policy, ends_in_directory, path_form,
};
use crate::text::{
    ascii_lower, char_is, upper_seq, eq_ignore_ascii_case, first_index, free_of, join, lemma_first_index,
    lemma_first_index_concat, lemma_join_free, lemma_lower_idempotent, lemma_lower_join,
    lemma_split_by_concat, lemma_split_by_free, lemma_split_by_pieces_free, lemma_split_join,
    lower_seq, split_by, split_on, trim,
};

verus! {

// ---------------------------------------------------------------------------
// Paths
// ---------------------------------------------------------------------------

/// A segment that survives path normalization: not empty, not `.` or `..`,
/// and without `/`.
pub open spec fn clean_segment(p: Seq<char>) -> bool {
    &&& p.len() > 0
    &&& !is_dot(p)
    &&& !is_dot_dot(p)
    &&& free_of(p, char_is('/'))
}

/// The segments a path keeps after normalization.
pub open spec fn path_segments(path: Seq<char>) -> Seq<Seq<char>> {
    resolve_segments(split_on(path, '/'))
}

proof fn lemma_resolve_clean(parts: Seq<Seq<char>>)
    requires
        forall|k: int| 0 <= k < parts.len() ==> free_of(#[trigger] parts[k], char_is('/')),
    ensures
        forall|k: int|
            0 <= k < resolve_segments(parts).len() ==> clean_segment(
                #[trigger] resolve_segments(parts)[k],
            ),
    decreases parts.len(),
{
    if parts.len() > 0 {
        let init = parts.drop_last();
        assert forall|k: int| 0 <= k < init.len() implies free_of(
            #[trigger] init[k],
            char_is('/'),
        ) by {
            assert(free_of(parts[k], char_is('/')));
        }
        lemma_resolve_clean(init);
        assert(free_of(parts[parts.len() - 1], char_is('/')));
        let stack = resolve_segments(init);
        let r = resolve_segments(parts);
        assert forall|k: int| 0 <= k < r.len() implies clean_segment(#[trigger] r[k]) by {
            if k < stack.len() {
                assert(clean_segment(stack[k]));
            }
        }
    }
}

proof fn lemma_resolve_append_clean(pre: Seq<Seq<char>>, segs: Seq<Seq<char>>)
    requires
        forall|k: int| 0 <= k < segs.len() ==> clean_segment(#[trigger] segs[k]),
    ensures
        resolve_segments(pre + segs) == resolve_segments(pre) + segs,
    decreases segs.len(),
{
    if segs.len() == 0 {
        assert(pre + segs =~= pre);
        assert(resolve_segments(pre) + segs =~= resolve_segments(pre));
    } else {
        let init = segs.drop_last();
        assert forall|k: int| 0 <= k < init.len() implies clean_segment(#[trigger] init[k]) by {
            assert(clean_segment(segs[k]));
        }
        lemma_resolve_append_clean(pre, init);
        assert((pre + segs).drop_last() =~= pre + init);
        assert(clean_segment(segs[segs.len() - 1]));
        assert((resolve_segments(pre) + init).push(segs.last()) =~= resolve_segments(pre) + segs);
    }
}

/// Whether a path names a directory, so that its normalized form keeps a
/// trailing `/`.
pub open spec fn path_trailing(path: Seq<char>) -> bool {
    ends_in_directory(split_on(path, '/'))
}

/// The pieces of a path in normal form, split at `/`: an empty piece before
/// the leading slash, the segments, and an empty piece after a trailing
/// slash; `/` alone when there is no segment.
proof fn lemma_split_path_form(segs: Seq<Seq<char>>, trailing: bool)
    requires
        forall|k: int| 0 <= k < segs.len() ==> clean_segment(#[trigger] segs[k]),
    ensures
        segs.len() > 0 ==> split_on(path_form(segs, trailing), '/') == seq![
            Seq::<char>::empty(),
        ] + segs + if trailing {
            seq![Seq::<char>::empty()]
        } else {
            Seq::<Seq<char>>::empty()
        },
        segs.len() == 0 ==> path_form(segs, trailing) == seq!['/'],
        segs.len() == 0 ==> split_on(path_form(segs, trailing), '/') == seq![
            Seq::<char>::empty(),
            Seq::<char>::empty(),
        ],
{
    let sep = char_is('/');
    let e = Seq::<char>::empty();
    let j = join(segs, seq!['/']);
    let x = seq!['/'] + j;
    assert(x =~= e + seq!['/'] + j);
    lemma_split_by_concat(e, '/', j, sep);
    assert(split_by(e, sep) =~= seq![e]);
    if segs.len() > 0 {
        assert forall|k: int| 0 <= k < segs.len() implies free_of(#[trigger] segs[k], sep) by {
            assert(clean_segment(segs[k]));
        }
        lemma_split_join(segs, '/', sep);
        assert(split_by(x, sep) == seq![e] + segs);
        if trailing {
            let y = x.push('/');
            assert(path_form(segs, trailing) =~= y);
            assert(y.drop_last() =~= x);
            assert(split_by(y, sep) == split_by(x, sep).push(e));
            assert((seq![e] + segs).push(e) =~= seq![e] + segs + seq![e]);
        } else {
            assert(path_form(segs, trailing) =~= x);
            assert(seq![e] + segs + Seq::<Seq<char>>::empty() =~= seq![e] + segs);
        }
    } else {
        assert(j =~= e);
        assert(path_form(segs, trailing) =~= seq!['/']);
        assert(x =~= seq!['/']);
        assert(seq![e] + seq![e] =~= seq![e, e]);
    }
}

/// A path in normal form, clean segments after `/` with or without a
/// trailing `/`, is its own normalization.
proof fn lemma_path_form_normalized(segs: Seq<Seq<char>>, trailing: bool)
    requires
        forall|k: int| 0 <= k < segs.len() ==> clean_segment(#[trigger] segs[k]),
    ensures
        normalized_path(path_form(segs, trailing)) == path_form(segs, trailing),
{
    lemma_split_path_form(segs, trailing);
    let e = Seq::<char>::empty();
    let x = path_form(segs, trailing);
    let parts = split_on(x, '/');
    assert(resolve_segments(seq![e]) =~= Seq::<Seq<char>>::empty()) by {
        assert(seq![e].drop_last() =~= Seq::<Seq<char>>::empty());
        assert(resolve_segments(Seq::<Seq<char>>::empty()) =~= Seq::<Seq<char>>::empty());
    }
    if segs.len() > 0 {
        lemma_resolve_append_clean(seq![e], segs);
        assert(Seq::<Seq<char>>::empty() + segs =~= segs);
        assert(resolve_segments(seq![e] + segs) == segs);
        if trailing {
            assert(parts == seq![e] + segs + seq![e]);
            assert(parts.drop_last() =~= seq![e] + segs);
            assert(parts.last() == e);
            assert(resolve_segments(parts) == segs);
            assert(ends_in_directory(parts));
        } else {
            assert(parts =~= seq![e] + segs);
            assert(resolve_segments(parts) == segs);
            assert(parts.last() == segs[segs.len() - 1]);
            assert(clean_segment(segs[segs.len() - 1]));
            assert(!ends_in_directory(parts));
        }
    } else {
        assert(parts.drop_last() =~= seq![e]);
        assert(resolve_segments(parts) =~= Seq::<Seq<char>>::empty());
        let r = path_form(resolve_segments(parts), ends_in_directory(parts));
        assert(join(Seq::<Seq<char>>::empty(), seq!['/']) =~= e);
        assert(r =~= seq!['/']);
    }
}

/// Path normalization leaves no empty, `.` or `..` segment: the normalized
/// path is `/`, the kept segments joined with `/`, and a trailing `/` where
/// the path named a directory and a segment is left. Splitting it at `/`
/// gives back exactly those pieces (or just `/` when no segment is left).
pub proof fn law_normalized_path_is_clean(path: Seq<char>)
    ensures
        normalized_path(path) == path_form(path_segments(path), path_trailing(path)),
        forall|k: int|
            0 <= k < path_segments(path).len() ==> clean_segment(
                #[trigger] path_segments(path)[k],
            ),
        path_segments(path).len() > 0 ==> split_on(normalized_path(path), '/') == seq![
            Seq::<char>::empty(),
        ] + path_segments(path) + if path_trailing(path) {
            seq![Seq::<char>::empty()]
        } else {
            Seq::<Seq<char>>::empty()
        },
        path_segments(path).len() == 0 ==> normalized_path(path) == seq!['/'],
{
    lemma_split_by_free(path, char_is('/'));
    lemma_resolve_clean(split_on(path, '/'));
    lemma_split_path_form(path_segments(path), path_trailing(path));
}

/// A path that ends in `/` and keeps a segment keeps its trailing `/`.
pub proof fn law_directory_path_keeps_trailing_slash(path: Seq<char>)
    requires
        path.len() > 0,
        path.last() == '/',
        path_segments(path).len() > 0,
    ensures
        normalized_path(path).last() == '/',
{
    let sep = char_is('/');
    assert(split_by(path, sep) == split_by(path.drop_last(), sep).push(Seq::<char>::empty()));
    assert(path_trailing(path));
}

/// Normalizing a normalized path changes nothing.
pub proof fn law_normalize_path_idempotent(path: Seq<char>)
    ensures
        normalized_path(normalized_path(path)) == normalized_path(path),
{
    law_normalized_path_is_clean(path);
    lemma_path_form_normalized(path_segments(path), path_trailing(path));
}

/// No two neighbouring characters of `s` are both `/`.
pub open spec fn no_double_slash(s: Seq<char>) -> bool {
    forall|i: int| 0 <= i < s.len() - 1 ==> !(#[trigger] s[i] == '/' && s[i + 1] == '/')
}

proof fn lemma_join_clean(segs: Seq<Seq<char>>)
    requires
        segs.len() >= 1,
        forall|k: int| 0 <= k < segs.len() ==> clean_segment(#[trigger] segs[k]),
    ensures
        join(segs, seq!['/']).len() > 0,
        join(segs, seq!['/'])[0] != '/',
        join(segs, seq!['/']).last() != '/',
        no_double_slash(join(segs, seq!['/'])),
    decreases segs.len(),
{
    let j = join(segs, seq!['/']);
    if segs.len() == 1 {
        assert(clean_segment(segs[0]));
        assert(j == segs[0]);
        assert(free_of(j, char_is('/')));
        assert(!(char_is('/'))(j[0]));
        assert(!(char_is('/'))(j[j.len() - 1]));
        assert forall|i: int| 0 <= i < j.len() - 1 implies !(#[trigger] j[i] == '/' && j[i + 1]
            == '/') by {
            assert(!(char_is('/'))(j[i]));
        }
    } else {
        let init = segs.drop_last();
        assert forall|k: int| 0 <= k < init.len() implies clean_segment(#[trigger] init[k]) by {
            assert(clean_segment(segs[k]));
        }
        lemma_join_clean(init);
        let a = join(init, seq!['/']);
        let l = segs.last();
        assert(clean_segment(segs[segs.len() - 1]));
        assert(j == a + seq!['/'] + l);
        assert(!(char_is('/'))(l[0]));
        assert(!(char_is('/'))(l[l.len() - 1]));
        assert(j[0] == a[0]);
        assert(j.last() == l.last());
        assert forall|i: int| 0 <= i < j.len() - 1 implies !(#[trigger] j[i] == '/' && j[i + 1]
            == '/') by {
            if i < a.len() - 1 {
                assert(j[i] == a[i] && j[i + 1] == a[i + 1]);
            } else if i == a.len() - 1 {
                assert(j[i] == a.last());
            } else if i == a.len() {
                assert(j[i + 1] == l[0]);
            } else {
                assert(j[i] == l[i - a.len() - 1]);
                assert(!(char_is('/'))(l[i - a.len() - 1]));
            }
        }
    }
}

/// Path normalization collapses repeated slashes: the result starts with `/`
/// and never holds two slashes in a row.
pub proof fn law_normalized_path_has_no_double_slash(path: Seq<char>)
    ensures
        normalized_path(path).len() > 0,
        normalized_path(path)[0] == '/',
        no_double_slash(normalized_path(path)),
{
    law_normalized_path_is_clean(path);
    let segs = path_segments(path);
    let np = normalized_path(path);
    if segs.len() > 0 {
        lemma_join_clean(segs);
        let j = join(segs, seq!['/']);
        let tail = if path_trailing(path) {
            seq!['/']
        } else {
            Seq::<char>::empty()
        };
        assert(np == seq!['/'] + j + tail);
        assert forall|i: int| 0 <= i < np.len() - 1 implies !(#[trigger] np[i] == '/' && np[i
            + 1] == '/') by {
            if i == 0 {
                assert(np[1] == j[0]);
            } else if i < j.len() {
                assert(np[i] == j[i - 1] && np[i + 1] == j[i]);
            } else {
                assert(np[i] == j[j.len() - 1]);
            }
        }
    } else {
        assert(np =~= seq!['/']);
    }
}


// ---------------------------------------------------------------------------
// Query ordering
// ---------------------------------------------------------------------------

proof fn lemma_lex_irreflexive(a: Seq<char>)
    ensures
        !lex_lt(a, a),
    decreases a.len(),
{
    if a.len() > 0 {
        lemma_lex_irreflexive(a.drop_first());
    }
}

proof fn lemma_lex_asymmetric(a: Seq<char>, b: Seq<char>)
    ensures
        lex_lt(a, b) ==> !lex_lt(b, a),
    decreases a.len(),
{
    if a.len() > 0 && b.len() > 0 && a[0] == b[0] {
        lemma_lex_asymmetric(a.drop_first(), b.drop_first());
    }
}

proof fn lemma_lex_transitive(a: Seq<char>, b: Seq<char>, c: Seq<char>)
    ensures
        lex_lt(a, b) && lex_lt(b, c) ==> lex_lt(a, c),
    decreases a.len(),
{
    if a.len() > 0 && b.len() > 0 && c.len() > 0 && a[0] == b[0] && b[0] == c[0] {
        lemma_lex_transitive(a.drop_first(), b.drop_first(), c.drop_first());
    }
}

proof fn lemma_lex_total(a: Seq<char>, b: Seq<char>)
    ensures
        a != b ==> lex_lt(a, b) || lex_lt(b, a),
    decreases a.len(),
{
    if a.len() == 0 {
        if b.len() == 0 {
            assert(a =~= b);
        }
    } else if b.len() > 0 && a[0] == b[0] {
        lemma_lex_total(a.drop_first(), b.drop_first());
        if a.drop_first() == b.drop_first() {
            assert(a =~= b) by {
                assert(a =~= seq![a[0]] + a.drop_first());
                assert(b =~= seq![b[0]] + b.drop_first());
            }
        }
    }
}

proof fn lemma_pair_after_asymmetric(a: Seq<char>, b: Seq<char>)
    ensures
        pair_after(a, b) ==> !pair_after(b, a),
{
    let (an, av) = query_pair(a);
    let (bn, bv) = query_pair(b);
    lemma_lex_asymmetric(an, bn);
    lemma_lex_asymmetric(av, bv);
    lemma_lex_irreflexive(an);
}

proof fn lemma_pair_not_after_transitive(a: Seq<char>, b: Seq<char>, c: Seq<char>)
    ensures
        !pair_after(a, b) && !pair_after(b, c) ==> !pair_after(a, c),
{
    let (an, av) = query_pair(a);
    let (bn, bv) = query_pair(b);
    let (cn, cv) = query_pair(c);
    lemma_lex_total(an, bn);
    lemma_lex_total(bn, cn);
    lemma_lex_total(an, cn);
    lemma_lex_total(av, bv);
    lemma_lex_total(bv, cv);
    lemma_lex_total(av, cv);
    lemma_lex_transitive(an, bn, cn);
    lemma_lex_transitive(cn, bn, an);
    lemma_lex_transitive(av, bv, cv);
    lemma_lex_transitive(cv, bv, av);
    lemma_lex_asymmetric(an, cn);
    lemma_lex_asymmetric(an, bn);
    lemma_lex_asymmetric(bn, cn);
    lemma_lex_asymmetric(av, cv);
    lemma_lex_asymmetric(av, bv);
    lemma_lex_asymmetric(bv, cv);
    lemma_lex_irreflexive(an);
    lemma_lex_irreflexive(av);
}

/// No pair sorts after a later one.
pub open spec fn params_sorted(s: Seq<Seq<char>>) -> bool {
    forall|i: int, j: int| 0 <= i < j < s.len() ==> !pair_after(#[trigger] s[i], #[trigger] s[j])
}

proof fn lemma_insert_sorted(s: Seq<Seq<char>>, x: Seq<char>)
    requires
        params_sorted(s),
    ensures
        params_sorted(insert_sorted(s, x)),
        insert_sorted(s, x).to_multiset() == s.to_multiset().insert(x),
    decreases s.len(),
{
    broadcast use vstd::seq_lib::group_to_multiset_ensures;
    broadcast use vstd::multiset::group_multiset_axioms;

    if s.len() == 0 {
        assert(seq![x] =~= Seq::<Seq<char>>::empty().push(x));
    } else {
        let init = s.drop_last();
        let last = s.last();
        assert(s =~= init.push(last));
        if pair_after(last, x) {
            assert(params_sorted(init)) by {
                assert forall|i: int, j: int| 0 <= i < j < init.len() implies !pair_after(
                    #[trigger] init[i],
                    #[trigger] init[j],
                ) by {
                    assert(init[i] == s[i] && init[j] == s[j]);
                }
            }
            lemma_insert_sorted(init, x);
            let m = insert_sorted(init, x);
            let r = m.push(last);
            assert(r == insert_sorted(s, x));
            lemma_pair_after_asymmetric(last, x);
            assert forall|i: int, j: int| 0 <= i < j < r.len() implies !pair_after(
                #[trigger] r[i],
                #[trigger] r[j],
            ) by {
                if j == r.len() - 1 {
                    let e = r[i];
                    assert(m[i] == e);
                    assert(m.contains(e));
                    assert(m.to_multiset().count(e) > 0);
                    if e != x {
                        assert(init.to_multiset().count(e) > 0);
                        assert(init.contains(e));
                        let k = choose|k: int| 0 <= k < init.len() && init[k] == e;
                        assert(s[k] == e && s[s.len() - 1] == last);
                    }
                } else {
                    assert(r[i] == m[i] && r[j] == m[j]);
                }
            }
            assert(r.to_multiset() =~= s.to_multiset().insert(x));
        } else {
            let r = s.push(x);
            assert forall|i: int, j: int| 0 <= i < j < r.len() implies !pair_after(
                #[trigger] r[i],
                #[trigger] r[j],
            ) by {
                if j == r.len() - 1 {
                    if i < s.len() - 1 {
                        assert(!pair_after(s[i], s[s.len() - 1]));
                        lemma_pair_not_after_transitive(s[i], last, x);
                    }
                } else {
                    assert(r[i] == s[i] && r[j] == s[j]);
                }
            }
        }
    }
}

/// Sorting the query pairs orders them by name and then value, and keeps
/// every pair exactly as often as it occurs.
pub proof fn law_sort_params_sorted_permutation(s: Seq<Seq<char>>)
    ensures
        params_sorted(sort_params(s)),
        sort_params(s).to_multiset() == s.to_multiset(),
    decreases s.len(),
{
    broadcast use vstd::seq_lib::group_to_multiset_ensures;
    broadcast use vstd::multiset::group_multiset_axioms;

    if s.len() == 0 {
        assert(sort_params(s) =~= s);
    } else {
        law_sort_params_sorted_permutation(s.drop_last());
        lemma_insert_sorted(sort_params(s.drop_last()), s.last());
        assert(s =~= s.drop_last().push(s.last()));
    }
}

/// Sorting pairs that are already in order changes nothing.
pub proof fn law_sort_params_keeps_sorted(s: Seq<Seq<char>>)
    requires
        params_sorted(s),
    ensures
        sort_params(s) == s,
    decreases s.len(),
{
    if s.len() > 0 {
        let init = s.drop_last();
        assert(params_sorted(init)) by {
            assert forall|i: int, j: int| 0 <= i < j < init.len() implies !pair_after(
                #[trigger] init[i],
                #[trigger] init[j],
            ) by {
                assert(init[i] == s[i] && init[j] == s[j]);
            }
        }
        law_sort_params_keeps_sorted(init);
        if init.len() > 0 {
            assert(!pair_after(s[s.len() - 2], s[s.len() - 1]));
            assert(init.last() == s[s.len() - 2]);
        }
        assert(init.push(s.last()) =~= s);
    }
}


// ---------------------------------------------------------------------------
// Query filtering
// ---------------------------------------------------------------------------

/// A pair that query normalization keeps: not empty, and its name passes the
/// allowlist, the removal list and the removal prefixes.
pub open spec fn kept_pair(raw: Seq<char>, c: ConfigModel) -> bool {
    raw.len() > 0 && keeps_param(query_pair(raw).0, c)
}

/// Query filtering keeps exactly the pairs that pass: a pair is in the result
/// if and only if it is in the input and passes, and the result keeps the
/// input order (it is the input with the other pairs taken out).
pub proof fn law_kept_params_exact(raws: Seq<Seq<char>>, c: ConfigModel)
    ensures
        forall|k: int|
            0 <= k < kept_params(raws, c).len() ==> kept_pair(#[trigger] kept_params(raws, c)[k], c),
        forall|e: Seq<char>|
            #[trigger] kept_params(raws, c).contains(e) <==> raws.contains(e) && kept_pair(e, c),
        kept_params(raws, c) == raws.filter(|e: Seq<char>| kept_pair(e, c)),
    decreases raws.len(),
{
    reveal_with_fuel(Seq::filter, 1);
    let pred = |e: Seq<char>| kept_pair(e, c);
    if raws.len() == 0 {
        assert(kept_params(raws, c) =~= raws.filter(pred));
    } else {
        let init = raws.drop_last();
        law_kept_params_exact(init, c);
        let k0 = kept_params(init, c);
        assert(raws =~= init.push(raws.last()));
        assert forall|e: Seq<char>| #[trigger]
            kept_params(raws, c).contains(e) <==> raws.contains(e) && kept_pair(e, c) by {
            if raws.contains(e) && kept_pair(e, c) {
                let k = choose|k: int| 0 <= k < raws.len() && raws[k] == e;
                if k < raws.len() - 1 {
                    assert(init[k] == e);
                    assert(k0.contains(e));
                    let j = choose|j: int| 0 <= j < k0.len() && k0[j] == e;
                    assert(kept_params(raws, c)[j] == e);
                } else {
                    assert(kept_params(raws, c)[kept_params(raws, c).len() - 1] == e);
                }
            }
            if kept_params(raws, c).contains(e) {
                let j = choose|j: int|
                    0 <= j < kept_params(raws, c).len() && kept_params(raws, c)[j] == e;
                if j < k0.len() {
                    assert(k0[j] == e);
                    assert(k0.contains(e));
                    let k = choose|k: int| 0 <= k < init.len() && init[k] == e;
                    assert(raws[k] == e);
                } else {
                    assert(raws[raws.len() - 1] == e);
                }
            }
        }
    }
}

proof fn lemma_kept_params_all(ps: Seq<Seq<char>>, c: ConfigModel)
    requires
        forall|k: int| 0 <= k < ps.len() ==> kept_pair(#[trigger] ps[k], c),
    ensures
        kept_params(ps, c) == ps,
    decreases ps.len(),
{
    if ps.len() > 0 {
        let init = ps.drop_last();
        assert forall|k: int| 0 <= k < init.len() implies kept_pair(#[trigger] init[k], c) by {
            assert(kept_pair(ps[k], c));
        }
        lemma_kept_params_all(init, c);
        assert(kept_pair(ps[ps.len() - 1], c));
        assert(init.push(ps.last()) =~= ps);
    }
}

/// Normalizing a normalized query string changes nothing.
pub proof fn law_normalize_query_idempotent(query: Seq<char>, c: ConfigModel)
    ensures
        normalized_query(normalized_query(query, c), c) == normalized_query(query, c),
{
    broadcast use vstd::seq_lib::group_to_multiset_ensures;

    let amp = char_is('&');
    let raws = split_on(query, '&');
    lemma_split_by_free(query, amp);
    law_kept_params_exact(raws, c);
    let kept = kept_params(raws, c);
    let list = if c.sort_query {
        sort_params(kept)
    } else {
        kept
    };
    // Every pair of the list is kept and holds no `&`.
    assert forall|k: int| 0 <= k < kept.len() implies kept_pair(#[trigger] kept[k], c) && free_of(
        kept[k],
        amp,
    ) by {
        assert(kept.contains(kept[k]));
        assert(raws.contains(kept[k]));
        let j = choose|j: int| 0 <= j < raws.len() && raws[j] == kept[k];
        assert(free_of(raws[j], amp));
    }
    if c.sort_query {
        law_sort_params_sorted_permutation(kept);
    }
    assert forall|k: int| 0 <= k < list.len() implies kept_pair(#[trigger] list[k], c) && free_of(
        list[k],
        amp,
    ) by {
        if c.sort_query {
            assert(list.contains(list[k]));
            assert(list.to_multiset().count(list[k]) > 0);
            assert(kept.contains(list[k]));
            let j = choose|j: int| 0 <= j < kept.len() && kept[j] == list[k];
            assert(kept_pair(kept[j], c) && free_of(kept[j], amp));
        } else {
            assert(kept_pair(kept[k], c) && free_of(kept[k], amp));
        }
    }
    let nq = normalized_query(query, c);
    assert(nq == join(list, seq!['&']));
    if list.len() > 0 {
        lemma_split_join(list, '&', amp);
        assert(split_on(nq, '&') == list);
        lemma_kept_params_all(list, c);
        if c.sort_query {
            law_sort_params_keeps_sorted(list);
        }
    } else {
        assert(nq =~= Seq::<char>::empty());
        let e = Seq::<char>::empty();
        assert(split_on(nq, '&') =~= seq![e]);
        assert(seq![e].drop_last() =~= Seq::<Seq<char>>::empty());
        assert(kept_params(Seq::<Seq<char>>::empty(), c) =~= Seq::<Seq<char>>::empty());
        assert(kept_params(seq![e], c) =~= Seq::<Seq<char>>::empty());
        assert(sort_params(Seq::<Seq<char>>::empty()) =~= Seq::<Seq<char>>::empty());
        assert(normalized_query(nq, c) =~= Seq::<char>::empty());
    }
}


// ---------------------------------------------------------------------------
// Host
// ---------------------------------------------------------------------------

/// No character of `s` is an ASCII capital letter.
pub open spec fn no_ascii_upper(s: Seq<char>) -> bool {
    forall|i: int| 0 <= i < s.len() ==> !('A' <= #[trigger] s[i] <= 'Z')
}

/// With `lowercase_host` on, the normalized Host holds no ASCII capital.
pub proof fn law_host_lowercased(host: Seq<char>, c: ConfigModel)
    requires
        c.lowercase_host,
    ensures
        no_ascii_upper(normalized_host(host, c)),
{
    reveal_strlit(":80");
    reveal_strlit(":443");
    let l = lower_seq(trim(host));
    assert(no_ascii_upper(l));
    let r = normalized_host(host, c);
    assert forall|i: int| 0 <= i < r.len() implies !('A' <= #[trigger] r[i] <= 'Z') by {
        assert(r[i] == l[i]);
    }
}

// ---------------------------------------------------------------------------
// Filter decisions
// ---------------------------------------------------------------------------

/// In report mode the filter only emits headers: it counts a report, and
/// never rewrites the path or the host.
pub proof fn law_report_mode_only_emits_headers(c: ConfigModel, f: FactsModel)
    requires
        eq_ignore_ascii_case(c.mode, "report"@),
    ensures
        planned_actions(c, f).count_report,
        !planned_actions(c, f).count_rewrite,
        planned_actions(c, f).set_path is None,
        planned_actions(c, f).set_host is None,
{
}

/// Outside report mode, a request whose Host or URL normalization changes is
/// rewritten: the path becomes the normalized URL and the host the normalized
/// Host (unless that is empty); an unchanged request is left alone.
pub proof fn law_rewrite_mode_applies_normalization(c: ConfigModel, f: FactsModel)
    requires
        !eq_ignore_ascii_case(c.mode, "report"@),
    ensures
        ({
            let nh = normalized_host(host_or_default(f), c);
            let nu = normalized_url(path_or_default(f), c);
            let changed = nh != host_or_default(f) || nu != path_or_default(f);
            &&& planned_actions(c, f).count_rewrite == changed
            &&& planned_actions(c, f).set_path == (if changed {
                Some(nu)
            } else {
                None
            })
            &&& planned_actions(c, f).set_host == (if changed && nh.len() > 0 {
                Some(nh)
            } else {
                None
            })
        }),
{
}

/// When headers are emitted, the filter sets the normalized flag (`true`
/// exactly when Host or URL changed) and the cache-key hint
/// `<METHOD> <host><url>` followed by the vary-header lines; otherwise it sets
/// no header.
pub proof fn law_emitted_headers(c: ConfigModel, f: FactsModel)
    ensures
        ({
            let nh = normalized_host(host_or_default(f), c);
            let nu = normalized_url(path_or_default(f), c);
            let changed = nh != host_or_default(f) || nu != path_or_default(f);
            let key = cache_key(method_or_default(f), nh, nu, vary_pairs(c.vary_headers, f.vary_values));
            &&& c.emit_headers ==> planned_actions(c, f).set_headers == seq![
                (c.normalized_header, if changed {
                    "true"@
                } else {
                    "false"@
                }),
                (c.cache_key_header, key),
            ]
            &&& !c.emit_headers ==> planned_actions(c, f).set_headers.len() == 0
        }),
{
}


// ---------------------------------------------------------------------------
// URLs
// ---------------------------------------------------------------------------

proof fn lemma_lower_clean(seg: Seq<char>)
    requires
        clean_segment(seg),
    ensures
        clean_segment(lower_seq(seg)),
{
    let l = lower_seq(seg);
    assert(free_of(seg, char_is('/')));
    assert forall|i: int| 0 <= i < l.len() implies !(char_is('/'))(#[trigger] l[i]) by {
        assert(!(char_is('/'))(seg[i]));
    }
    if l.len() == 1 && l[0] == '.' {
        assert(seg =~= seq!['.']);
    }
    if l.len() == 2 && l[0] == '.' && l[1] == '.' {
        assert(seg =~= seq!['.', '.']);
    }
}

/// Lower-casing a path in normal form lower-cases each segment.
proof fn lemma_lower_form(segs: Seq<Seq<char>>, trailing: bool)
    ensures
        lower_seq(path_form(segs, trailing)) == path_form(
            segs.map_values(|p: Seq<char>| lower_seq(p)),
            trailing,
        ),
{
    let ls = segs.map_values(|p: Seq<char>| lower_seq(p));
    let j = join(segs, seq!['/']);
    lemma_lower_join(segs, seq!['/']);
    assert(lower_seq(seq!['/']) =~= seq!['/']);
    let tail = if trailing && segs.len() > 0 {
        seq!['/']
    } else {
        Seq::<char>::empty()
    };
    assert(lower_seq(tail) =~= tail);
    assert(lower_seq(seq!['/'] + j + tail) =~= lower_seq(seq!['/']) + lower_seq(j) + lower_seq(
        tail,
    ));
    assert(ls.len() == segs.len());
}

/// Whether a path in normal form ends in `/` once the trailing-slash policy
/// has run: `strip` removes the slash, `add` puts one, anything else keeps
/// what was there.
pub open spec fn policy_trailing(trailing: bool, mode: Seq<char>) -> bool {
    if mode == "strip"@ {
        false
    } else if mode == "add"@ {
        true
    } else {
        trailing
    }
}

/// The trailing-slash policy keeps a path in normal form, deciding only
/// whether it ends in `/`.
proof fn lemma_policy_form(segs: Seq<Seq<char>>, trailing: bool, mode: Seq<char>)
    requires
        forall|k: int| 0 <= k < segs.len() ==> clean_segment(#[trigger] segs[k]),
    ensures
        with_trailing_slash_policy(path_form(segs, trailing), mode) == path_form(
            segs,
            policy_trailing(trailing, mode),
        ),
{
    if segs.len() > 0 {
        lemma_join_clean(segs);
        let j = join(segs, seq!['/']);
        let x0 = path_form(segs, false);
        let x1 = path_form(segs, true);
        assert(x0 =~= seq!['/'] + j);
        assert(x1 =~= x0.push('/'));
        assert(x0.last() == j.last());
        assert(strip_trailing_slashes(x0) == x0);
        assert(x1.drop_last() =~= x0);
        assert(strip_trailing_slashes(x1) == strip_trailing_slashes(x0));
    } else {
        assert(path_form(segs, trailing) =~= seq!['/']);
        assert(path_form(segs, policy_trailing(trailing, mode)) =~= seq!['/']);
        assert(strip_trailing_slashes(seq!['/']) == seq!['/']);
    }
}

proof fn lemma_lower_strip(z: Seq<char>)
    ensures
        lower_seq(strip_trailing_slashes(z)) == strip_trailing_slashes(lower_seq(z)),
    decreases z.len(),
{
    if z.len() > 0 {
        assert(lower_seq(z).drop_last() =~= lower_seq(z.drop_last()));
        assert(lower_seq(z).last() == ascii_lower(z.last()));
    }
    if z.len() > 1 && z.last() == '/' {
        lemma_lower_strip(z.drop_last());
    }
}

proof fn lemma_lower_policy(z: Seq<char>, mode: Seq<char>)
    ensures
        lower_seq(with_trailing_slash_policy(z, mode)) == with_trailing_slash_policy(
            lower_seq(z),
            mode,
        ),
{
    lemma_lower_strip(z);
    if z.len() > 0 {
        assert(lower_seq(z).last() == ascii_lower(z.last()));
    }
    assert(lower_seq(z.push('/')) =~= lower_seq(z).push('/'));
}

proof fn lemma_strip_result(z: Seq<char>)
    ensures
        !(strip_trailing_slashes(z).len() > 1 && strip_trailing_slashes(z).last() == '/'),
    decreases z.len(),
{
    if z.len() > 1 && z.last() == '/' {
        lemma_strip_result(z.drop_last());
    }
}

proof fn lemma_policy_idempotent(z: Seq<char>, mode: Seq<char>)
    ensures
        with_trailing_slash_policy(with_trailing_slash_policy(z, mode), mode)
            == with_trailing_slash_policy(z, mode),
{
    lemma_strip_result(z);
}

proof fn lemma_strip_free(z: Seq<char>, q: spec_fn(char) -> bool)
    requires
        free_of(z, q),
    ensures
        free_of(strip_trailing_slashes(z), q),
    decreases z.len(),
{
    if z.len() > 1 && z.last() == '/' {
        assert(free_of(z.drop_last(), q)) by {
            assert forall|i: int| 0 <= i < z.drop_last().len() implies !q(
                #[trigger] z.drop_last()[i],
            ) by {
                assert(z.drop_last()[i] == z[i]);
            }
        }
        lemma_strip_free(z.drop_last(), q);
    }
}

proof fn lemma_resolve_free(parts: Seq<Seq<char>>, q: spec_fn(char) -> bool)
    requires
        forall|k: int| 0 <= k < parts.len() ==> free_of(#[trigger] parts[k], q),
    ensures
        forall|k: int|
            0 <= k < resolve_segments(parts).len() ==> free_of(
                #[trigger] resolve_segments(parts)[k],
                q,
            ),
    decreases parts.len(),
{
    if parts.len() > 0 {
        let init = parts.drop_last();
        assert forall|k: int| 0 <= k < init.len() implies free_of(#[trigger] init[k], q) by {
            assert(free_of(parts[k], q));
        }
        lemma_resolve_free(init, q);
        assert(free_of(parts[parts.len() - 1], q));
        let stack = resolve_segments(init);
        let r = resolve_segments(parts);
        assert forall|k: int| 0 <= k < r.len() implies free_of(#[trigger] r[k], q) by {
            if k < stack.len() {
                assert(free_of(stack[k], q));
            }
        }
    }
}

/// The path part of a normalized URL holds no `?` when the path given holds
/// none.
proof fn lemma_url_path_free(path: Seq<char>, c: ConfigModel)
    requires
        free_of(path, char_is('?')),
    ensures
        free_of(normalized_url_path(path, c), char_is('?')),
{
    let q = char_is('?');
    let p1 = if c.normalize_path {
        normalized_path(path)
    } else {
        path
    };
    if c.normalize_path {
        law_normalized_path_is_clean(path);
        lemma_split_by_pieces_free(path, char_is('/'), q);
        lemma_resolve_free(split_on(path, '/'), q);
        assert(free_of(seq!['/'], q));
        lemma_join_free(path_segments(path), seq!['/'], q);
        let j = join(path_segments(path), seq!['/']);
        let tail = if path_trailing(path) && path_segments(path).len() > 0 {
            seq!['/']
        } else {
            Seq::<char>::empty()
        };
        assert(p1 == seq!['/'] + j + tail);
        assert forall|i: int| 0 <= i < p1.len() implies !q(#[trigger] p1[i]) by {
            if i == 0 {
                assert(p1[0] == '/');
            } else if i <= j.len() {
                assert(p1[i] == j[i - 1]);
            } else {
                assert(p1[i] == tail[i - 1 - j.len()]);
            }
        }
    }
    let p2 = if c.lowercase_path {
        lower_seq(p1)
    } else {
        p1
    };
    assert forall|i: int| 0 <= i < p2.len() implies !q(#[trigger] p2[i]) by {
        assert(!q(p1[i]));
    }
    lemma_strip_free(p2, q);
    let r = normalized_url_path(path, c);
    assert forall|i: int| 0 <= i < r.len() implies !q(#[trigger] r[i]) by {
        if c.trailing_slash != "strip"@ && i < p2.len() {
            assert(r[i] == p2[i]);
        }
    }
}

/// Normalizing the path part of a URL twice is normalizing it once.
proof fn lemma_url_path_idempotent(path: Seq<char>, c: ConfigModel)
    ensures
        normalized_url_path(normalized_url_path(path, c), c) == normalized_url_path(path, c),
{
    let mode = c.trailing_slash;
    if c.normalize_path {
        law_normalized_path_is_clean(path);
        let segs = path_segments(path);
        let t = path_trailing(path);
        let y = normalized_path(path);
        let x = if c.lowercase_path {
            lower_seq(y)
        } else {
            y
        };
        let s1 = if c.lowercase_path {
            segs.map_values(|p: Seq<char>| lower_seq(p))
        } else {
            segs
        };
        // `x` is a path in normal form.
        if c.lowercase_path {
            lemma_lower_form(segs, t);
            assert forall|k: int| 0 <= k < s1.len() implies clean_segment(#[trigger] s1[k]) by {
                lemma_lower_clean(segs[k]);
            }
            lemma_lower_idempotent(y);
        }
        assert(x == path_form(s1, t));
        // So is what the trailing-slash policy makes of it.
        let p = with_trailing_slash_policy(x, mode);
        lemma_policy_form(s1, t, mode);
        lemma_path_form_normalized(s1, policy_trailing(t, mode));
        assert(normalized_path(p) == p);
        lemma_lower_policy(x, mode);
        lemma_policy_idempotent(x, mode);
    } else {
        let x = if c.lowercase_path {
            lower_seq(path)
        } else {
            path
        };
        lemma_lower_policy(x, mode);
        lemma_lower_idempotent(path);
        lemma_policy_idempotent(x, mode);
    }
}

/// Splitting a URL at its first `?`: the path part holds no `?`.
proof fn lemma_url_parts_path_free(url: Seq<char>)
    ensures
        free_of(url_parts(url).0, char_is('?')),
{
    lemma_first_index(url, '?');
    let p = url_parts(url).0;
    assert forall|i: int| 0 <= i < p.len() implies !(char_is('?'))(#[trigger] p[i]) by {
        assert(p[i] == url[i]);
    }
}

/// Normalizing a normalized URL changes nothing: the path part and the query
/// part are each already normalized, and the `?` between them is the first.
pub proof fn law_normalize_url_idempotent(url: Seq<char>, c: ConfigModel)
    ensures
        normalized_url(normalized_url(url, c), c) == normalized_url(url, c),
{
    let (path, query) = url_parts(url);
    lemma_url_parts_path_free(url);
    let p = normalized_url_path(path, c);
    let q = normalized_query(query, c);
    let u = normalized_url(url, c);
    lemma_url_path_free(path, c);
    lemma_url_path_idempotent(path, c);
    law_normalize_query_idempotent(query, c);
    if q.len() == 0 {
        lemma_first_index_concat(p, Seq::empty(), '?');
        assert(p + Seq::<char>::empty() =~= p);
        assert(url_parts(u) == (p, Seq::<char>::empty()));
        assert(q =~= Seq::<char>::empty());
    } else {
        lemma_first_index_concat(p, seq!['?'] + q, '?');
        assert(u =~= p + (seq!['?'] + q));
        assert(first_index(seq!['?'] + q, '?') == 0);
        assert(u.take(p.len() as int) =~= p);
        assert(u.skip(p.len() + 1 as int) =~= q);
        assert(url_parts(u) == (p, q));
    }
}


/// The predicate "is an ASCII capital letter".
pub open spec fn ascii_capital() -> spec_fn(char) -> bool {
    |x: char| 'A' <= x <= 'Z'
}

/// With `lowercase_path` on, the path part of a normalized URL holds no ASCII
/// capital (the query keeps its case).
pub proof fn law_url_path_lowercased(path: Seq<char>, c: ConfigModel)
    requires
        c.lowercase_path,
    ensures
        free_of(normalized_url_path(path, c), ascii_capital()),
{
    let q = ascii_capital();
    let p1 = if c.normalize_path {
        normalized_path(path)
    } else {
        path
    };
    let p2 = lower_seq(p1);
    assert(free_of(p2, q));
    lemma_strip_free(p2, q);
    let r = normalized_url_path(path, c);
    assert forall|i: int| 0 <= i < r.len() implies !q(#[trigger] r[i]) by {
        if c.trailing_slash != "strip"@ && i < p2.len() {
            assert(r[i] == p2[i]);
        }
    }
}


// ---------------------------------------------------------------------------
// Cache key
// ---------------------------------------------------------------------------

/// The cache-key hint is the trimmed, ASCII-upper-cased method, a space, the
/// host and the URL exactly as given, then the vary lines; with no vary
/// header the key ends with the URL.
pub proof fn law_cache_key_layout(
    method: Seq<char>,
    host: Seq<char>,
    url: Seq<char>,
    vary: Seq<(Seq<char>, Seq<char>)>,
)
    ensures
        ({
            let key = cache_key(method, host, url, vary);
            let head = upper_seq(trim(method)) + seq![' '] + host;
            &&& key.take(head.len() as int) == head
            &&& key.subrange(head.len() as int, (head.len() + url.len()) as int) == url
            &&& key.skip((head.len() + url.len()) as int) == vary_lines(vary)
            &&& vary.len() == 0 ==> key == head + url
            &&& vary.len() == 0 ==> url.is_suffix_of(key)
        }),
{
    let key = cache_key(method, host, url, vary);
    let head = upper_seq(trim(method)) + seq![' '] + host;
    assert(key =~= head + url + vary_lines(vary));
    assert(key.take(head.len() as int) =~= head);
    assert(key.subrange(head.len() as int, (head.len() + url.len()) as int) =~= url);
    assert(key.skip((head.len() + url.len()) as int) =~= vary_lines(vary));
    if vary.len() == 0 {
        assert(vary_lines(vary) =~= Seq::<char>::empty());
        assert(key =~= head + url);
        assert(key.subrange(key.len() - url.len(), key.len() as int) =~= url);
    }
}

/// Requests with the same method, host and vary lines but different URLs get
/// different cache keys: the key tells URLs apart character for character
/// (so URLs that differ only in case keep separate keys).
pub proof fn law_cache_key_separates_urls(
    method: Seq<char>,
    host: Seq<char>,
    url1: Seq<char>,
    url2: Seq<char>,
    vary: Seq<(Seq<char>, Seq<char>)>,
)
    requires
        url1 != url2,
    ensures
        cache_key(method, host, url1, vary) != cache_key(method, host, url2, vary),
{
    law_cache_key_layout(method, host, url1, vary);
    law_cache_key_layout(method, host, url2, vary);
    let head = upper_seq(trim(method)) + seq![' '] + host;
    let k1 = cache_key(method, host, url1, vary);
    let k2 = cache_key(method, host, url2, vary);
    if k1 == k2 {
        assert(k1.len() == head.len() + url1.len() + vary_lines(vary).len());
        assert(k2.len() == head.len() + url2.len() + vary_lines(vary).len());
        assert(url1.len() == url2.len());
        assert(url1 =~= url2);
    }
}

// ---------------------------------------------------------------------------
// Host: default ports
// ---------------------------------------------------------------------------

/// With `strip_default_port` on, a default port is stripped whatever
/// `lowercase_host` says: of the trimmed (and, when asked, lower-cased) Host,
/// a final `:80` is removed, else a final `:443`; anything else stays.
pub proof fn law_default_port_stripped(host: Seq<char>, c: ConfigModel)
    requires
        c.strip_default_port,
    ensures
        ({
            let l = if c.lowercase_host {
                lower_seq(trim(host))
            } else {
                trim(host)
            };
            let r = normalized_host(host, c);
            &&& l.len() >= 3 && l.skip(l.len() - 3) == ":80"@ ==> r == l.take(l.len() - 3)
            &&& !(l.len() >= 3 && l.skip(l.len() - 3) == ":80"@) && l.len() >= 4 && l.skip(
                l.len() - 4,
            ) == ":443"@ ==> r == l.take(l.len() - 4)
            &&& !(l.len() >= 3 && l.skip(l.len() - 3) == ":80"@) && !(l.len() >= 4 && l.skip(
                l.len() - 4,
            ) == ":443"@) ==> r == l
        }),
{
    reveal_strlit(":80");
    reveal_strlit(":443");
    let l = if c.lowercase_host {
        lower_seq(trim(host))
    } else {
        trim(host)
    };
    assert(":80"@.is_suffix_of(l) <==> (l.len() >= 3 && l.skip(l.len() - 3) == ":80"@)) by {
        if l.len() >= 3 {
            assert(l.subrange(l.len() - 3, l.len() as int) =~= l.skip(l.len() - 3));
        }
    }
    assert(":443"@.is_suffix_of(l) <==> (l.len() >= 4 && l.skip(l.len() - 4) == ":443"@)) by {
        if l.len() >= 4 {
            assert(l.subrange(l.len() - 4, l.len() as int) =~= l.skip(l.len() - 4));
        }
    }
}

/// Lower-casing a Host commutes with the rest of its normalization: turning
/// `lowercase_host` on only lower-cases the result, so a default port is
/// stripped the same way with it on or off.
pub proof fn law_host_case_independent_of_port(host: Seq<char>, c: ConfigModel)
    ensures
        normalized_host(host, ConfigModel { lowercase_host: true, ..c }) == lower_seq(
            normalized_host(host, ConfigModel { lowercase_host: false, ..c }),
        ),
{
    reveal_strlit(":80");
    reveal_strlit(":443");
    let t = trim(host);
    let l = lower_seq(t);
    lemma_lower_keeps_suffix(t, ":80"@);
    lemma_lower_keeps_suffix(t, ":443"@);
    if t.len() >= 3 {
        assert(lower_seq(t.take(t.len() - 3)) =~= l.take(l.len() - 3));
    }
    if t.len() >= 4 {
        assert(lower_seq(t.take(t.len() - 4)) =~= l.take(l.len() - 4));
    }
}

/// A suffix made of characters that ASCII lower-casing neither changes nor
/// produces is a suffix of a text exactly when it is one of the text
/// lower-cased.
proof fn lemma_lower_keeps_suffix(t: Seq<char>, sfx: Seq<char>)
    requires
        forall|i: int|
            0 <= i < sfx.len() ==> !('A' <= #[trigger] sfx[i] <= 'Z') && !('a' <= sfx[i] <= 'z'),
    ensures
        sfx.is_suffix_of(lower_seq(t)) <==> sfx.is_suffix_of(t),
{
    let l = lower_seq(t);
    if sfx.len() <= t.len() {
        let n = t.len() - sfx.len();
        assert forall|i: int| 0 <= i < sfx.len() implies (#[trigger] l[n + i] == sfx[i]) <==> (t[n
            + i] == sfx[i]) by {
            assert(l[n + i] == ascii_lower(t[n + i]));
            assert(!('A' <= sfx[i] <= 'Z') && !('a' <= sfx[i] <= 'z'));
        }
        if sfx.is_suffix_of(l) {
            assert forall|i: int| 0 <= i < sfx.len() implies #[trigger] t.subrange(
                n,
                t.len() as int,
            )[i] == sfx[i] by {
                assert(l.subrange(n, l.len() as int)[i] == l[n + i]);
            }
            assert(t.subrange(n, t.len() as int) =~= sfx);
        }
        if sfx.is_suffix_of(t) {
            assert forall|i: int| 0 <= i < sfx.len() implies #[trigger] l.subrange(
                n,
                l.len() as int,
            )[i] == sfx[i] by {
                assert(t.subrange(n, t.len() as int)[i] == t[n + i]);
            }
            assert(l.subrange(n, l.len() as int) =~= sfx);
        }
    }
}

// ---------------------------------------------------------------------------
// Query: what survives
// ---------------------------------------------------------------------------

/// The list of pairs that a normalized query joins with `&`.
spec fn query_list(query: Seq<char>, c: ConfigModel) -> Seq<Seq<char>> {
    let kept = kept_params(split_on(query, '&'), c);
    if c.sort_query {
        sort_params(kept)
    } else {
        kept
    }
}

/// Every pair that a normalized query joins holds no `&` and passes the
/// filters.
proof fn lemma_query_list(query: Seq<char>, c: ConfigModel)
    ensures
        normalized_query(query, c) == join(query_list(query, c), seq!['&']),
        forall|k: int|
            0 <= k < query_list(query, c).len() ==> kept_pair(#[trigger] query_list(query, c)[k], c)
                && free_of(query_list(query, c)[k], char_is('&')),
{
    broadcast use vstd::seq_lib::group_to_multiset_ensures;

    let amp = char_is('&');
    let raws = split_on(query, '&');
    lemma_split_by_free(query, amp);
    law_kept_params_exact(raws, c);
    let kept = kept_params(raws, c);
    let list = query_list(query, c);
    assert forall|k: int| 0 <= k < kept.len() implies kept_pair(#[trigger] kept[k], c) && free_of(
        kept[k],
        amp,
    ) by {
        assert(kept.contains(kept[k]));
        assert(raws.contains(kept[k]));
        let j = choose|j: int| 0 <= j < raws.len() && raws[j] == kept[k];
        assert(free_of(raws[j], amp));
    }
    if c.sort_query {
        law_sort_params_sorted_permutation(kept);
    }
    assert forall|k: int| 0 <= k < list.len() implies kept_pair(#[trigger] list[k], c) && free_of(
        list[k],
        amp,
    ) by {
        if c.sort_query {
            assert(list.contains(list[k]));
            assert(list.to_multiset().count(list[k]) > 0);
            assert(kept.contains(list[k]));
            let j = choose|j: int| 0 <= j < kept.len() && kept[j] == list[k];
            assert(kept_pair(kept[j], c) && free_of(kept[j], amp));
        } else {
            assert(kept_pair(kept[k], c) && free_of(kept[k], amp));
        }
    }
}

/// Every pair of a normalized query is non-empty; its name is, character for
/// character, an entry of the allowlist when there is one; it is not on the
/// removal list; and it starts with no removal prefix.
pub proof fn law_normalized_query_pairs_pass(query: Seq<char>, c: ConfigModel)
    ensures
        normalized_query(query, c).len() > 0 ==> forall|k: int|
            0 <= k < split_on(normalized_query(query, c), '&').len() ==> {
                let pair = #[trigger] split_on(normalized_query(query, c), '&')[k];
                let name = query_pair(pair).0;
                &&& pair.len() > 0
                &&& c.keep_query_params.len() > 0 ==> c.keep_query_params.contains(name)
                &&& !c.remove_query_params.contains(name)
                &&& forall|j: int|
                    0 <= j < c.remove_query_prefixes.len() ==> !(
                    #[trigger] c.remove_query_prefixes[j]).is_prefix_of(name)
            },
{
    lemma_query_list(query, c);
    let list = query_list(query, c);
    let nq = normalized_query(query, c);
    if nq.len() > 0 {
        if list.len() == 0 {
            assert(join(list, seq!['&']) =~= Seq::<char>::empty());
        }
        lemma_split_join(list, '&', char_is('&'));
        assert(split_on(nq, '&') == list);
        assert forall|k: int| 0 <= k < list.len() implies {
            let name = query_pair(#[trigger] list[k]).0;
            &&& list[k].len() > 0
            &&& c.keep_query_params.len() > 0 ==> c.keep_query_params.contains(name)
            &&& !c.remove_query_params.contains(name)
            &&& forall|j: int|
                0 <= j < c.remove_query_prefixes.len() ==> !(
                #[trigger] c.remove_query_prefixes[j]).is_prefix_of(name)
        } by {
            assert(kept_pair(list[k], c));
        }
    }
}

// ---------------------------------------------------------------------------
// Filter counters and vary headers
// ---------------------------------------------------------------------------

/// The report counter is bumped exactly in report mode, and the rewrite
/// counter only outside it.
pub proof fn law_report_counted_only_in_report_mode(c: ConfigModel, f: FactsModel)
    ensures
        planned_actions(c, f).count_report == eq_ignore_ascii_case(c.mode, "report"@),
        planned_actions(c, f).count_rewrite ==> !eq_ignore_ascii_case(c.mode, "report"@),
        !planned_actions(c, f).count_config_error,
{
}

/// How many of the configured vary headers the request carries (a value is
/// present for it).
pub open spec fn present_count(names_len: nat, values: Seq<Option<Seq<char>>>) -> nat
    decreases values.len(),
{
    if values.len() == 0 {
        0
    } else {
        present_count(names_len, values.drop_last()) + if values.len() - 1 < names_len
            && values.last() is Some {
            1nat
        } else {
            0nat
        }
    }
}

/// Every configured vary header that the request carries is collected with
/// its exact value, whatever that value is (an empty one too); every
/// collected pair is such a header and value; and there are exactly as many
/// pairs as headers carried.
pub proof fn law_vary_pairs_collect_present(
    names: Seq<Seq<char>>,
    values: Seq<Option<Seq<char>>>,
)
    ensures
        forall|i: int|
            0 <= i < names.len() && 0 <= i < values.len() && (#[trigger] values[i]) is Some
                ==> vary_pairs(names, values).contains((names[i], values[i]->Some_0)),
        forall|k: int|
            0 <= k < vary_pairs(names, values).len() ==> exists|i: int|
                0 <= i < names.len() && 0 <= i < values.len() && #[trigger] values[i] == Some(
                    (#[trigger] vary_pairs(names, values)[k]).1,
                ) && names[i] == vary_pairs(names, values)[k].0,
        vary_pairs(names, values).len() == present_count(names.len(), values),
    decreases values.len(),
{
    if values.len() > 0 {
        let init = values.drop_last();
        law_vary_pairs_collect_present(names, init);
        let rest = vary_pairs(names, init);
        let r = vary_pairs(names, values);
        let n = values.len() - 1;
        assert forall|i: int|
            0 <= i < names.len() && 0 <= i < values.len() && (#[trigger] values[i]) is Some
                implies r.contains((names[i], values[i]->Some_0)) by {
            if i < n {
                assert(init[i] == values[i]);
                assert(rest.contains((names[i], values[i]->Some_0)));
                let k = choose|k: int| 0 <= k < rest.len() && rest[k] == (names[i], values[i]->Some_0);
                assert(r[k] == rest[k]);
            } else {
                assert(r[r.len() - 1] == (names[i], values[i]->Some_0));
            }
        }
        assert forall|k: int| 0 <= k < r.len() implies exists|i: int|
            0 <= i < names.len() && 0 <= i < values.len() && #[trigger] values[i] == Some(
                (#[trigger] r[k]).1,
            ) && names[i] == r[k].0 by {
            if k < rest.len() {
                assert(r[k] == rest[k]);
                let i = choose|i: int|
                    0 <= i < names.len() && 0 <= i < init.len() && #[trigger] init[i] == Some(
                        rest[k].1,
                    ) && names[i] == rest[k].0;
                assert(values[i] == init[i]);
            } else {
                assert(values[n] == Some(r[k].1));
            }
        }
    }
}
} // verus!
