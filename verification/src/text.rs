//! Character-sequence model of the string operations that normalization uses,
//! with verified executable counterparts working on `Vec<char>`.
use vstd::prelude::*;

verus! {

// ---------------------------------------------------------------------------
// Character classes
// ---------------------------------------------------------------------------

/// Whether `c` carries the Unicode `White_Space` property, the set that
/// `char::is_whitespace` (and so `str::trim` and `str::split_whitespace`) tests.
pub open spec fn is_white_space(c: char) -> bool {
    let n = c as u32;
    ||| 0x09 <= n <= 0x0d
    ||| n == 0x20
    ||| n == 0x85
    ||| n == 0xa0
    ||| n == 0x1680
    ||| 0x2000 <= n <= 0x200a
    ||| n == 0x2028
    ||| n == 0x2029
    ||| n == 0x202f
    ||| n == 0x205f
    ||| n == 0x3000
}

/// ASCII lower-casing of one character; every other character is unchanged.
pub open spec fn ascii_lower(c: char) -> char {
    if 'A' <= c <= 'Z' {
        ((c as u32) + 32) as char
    } else {
        c
    }
}

/// ASCII upper-casing of one character; every other character is unchanged.
pub open spec fn ascii_upper(c: char) -> char {
    if 'a' <= c <= 'z' {
        ((c as u32) - 32) as char
    } else {
        c
    }
}

pub open spec fn lower_seq(s: Seq<char>) -> Seq<char> {
    s.map_values(|c: char| ascii_lower(c))
}

pub open spec fn upper_seq(s: Seq<char>) -> Seq<char> {
    s.map_values(|c: char| ascii_upper(c))
}

/// ASCII case-insensitive equality, as `str::eq_ignore_ascii_case` decides it.
pub open spec fn eq_ignore_ascii_case(a: Seq<char>, b: Seq<char>) -> bool {
    &&& a.len() == b.len()
    &&& forall|i: int| 0 <= i < a.len() ==> ascii_lower(#[trigger] a[i]) == ascii_lower(b[i])
}

/// The characters of `s` with leading white space removed.
pub open spec fn trim_start(s: Seq<char>) -> Seq<char>
    decreases s.len(),
{
    if s.len() > 0 && is_white_space(s[0]) {
        trim_start(s.drop_first())
    } else {
        s
    }
}

/// The characters of `s` with trailing white space removed.
pub open spec fn trim_end(s: Seq<char>) -> Seq<char>
    decreases s.len(),
{
    if s.len() > 0 && is_white_space(s.last()) {
        trim_end(s.drop_last())
    } else {
        s
    }
}

/// `str::trim`: white space removed at both ends.
pub open spec fn trim(s: Seq<char>) -> Seq<char> {
    trim_end(trim_start(s))
}

// ---------------------------------------------------------------------------
// Executable character operations
// ---------------------------------------------------------------------------

/// `char::is_whitespace`, written out over the `White_Space` code points.
pub fn is_white_space_char(c: char) -> (r: bool)
    ensures
        r == is_white_space(c),
{
    let n: u32 = c as u32;
    (0x09 <= n && n <= 0x0d) || n == 0x20 || n == 0x85 || n == 0xa0 || n == 0x1680 || (0x2000
        <= n && n <= 0x200a) || n == 0x2028 || n == 0x2029 || n == 0x202f || n == 0x205f || n
        == 0x3000
}

pub fn lower_char(c: char) -> (r: char)
    ensures
        r == ascii_lower(c),
{
    if 'A' <= c && c <= 'Z' {
        let b: u8 = (c as u8) + 32;
        b as char
    } else {
        c
    }
}

pub fn upper_char(c: char) -> (r: char)
    ensures
        r == ascii_upper(c),
{
    if 'a' <= c && c <= 'z' {
        let b: u8 = (c as u8) - 32;
        b as char
    } else {
        c
    }
}

/// The characters of a string slice.
pub fn chars_of(s: &str) -> (v: Vec<char>)
    ensures
        v@ == s@,
{
    let mut v: Vec<char> = Vec::new();
    for c in it: s.chars()
        invariant
            v@ == it.seq().take(it.index() as int),
            it.seq() == s@,
    {
        v.push(c);
    }
    v
}

/// `String::push` (std): appends the character to the string; the contract
/// claims the string's characters afterwards are the old ones followed by `c`.
#[verifier::external_body]
fn push_char(s: &mut String, c: char)
    ensures
        final(s)@ == old(s)@.push(c),
{
    s.push(c);
}

/// A `String` holding exactly the given characters.
pub fn string_of(v: &Vec<char>) -> (s: String)
    ensures
        s@ == v@,
{
    let mut s = String::new();
    for i in 0..v.len()
        invariant
            s@ == v@.take(i as int),
    {
        push_char(&mut s, v[i]);
        assert(v@.take(i + 1) =~= v@.take(i as int).push(v@[i as int]));
    }
    assert(v@.take(v@.len() as int) =~= v@);
    s
}

/// The characters of every string of a list.
pub fn chars_of_all(list: &Vec<String>) -> (r: Vec<Vec<char>>)
    ensures
        r.deep_view() == list.deep_view(),
{
    let mut r: Vec<Vec<char>> = Vec::new();
    for i in 0..list.len()
        invariant
            r.deep_view() =~= list.deep_view().take(i as int),
    {
        let ghost before = r.deep_view();
        let c = chars_of(list[i].as_str());
        assert(c.deep_view() =~= c@);
        r.push(c);
        assert(r.deep_view() =~= before.push(list.deep_view()[i as int]));
    }
    r
}

/// Appends the characters of `src` to `dst`.
pub fn append_chars(dst: &mut Vec<char>, src: &Vec<char>)
    ensures
        final(dst)@ == old(dst)@ + src@,
{
    for i in 0..src.len()
        invariant
            dst@ == old(dst)@ + src@.take(i as int),
    {
        dst.push(src[i]);
        assert(src@.take(i + 1) =~= src@.take(i as int).push(src@[i as int]));
    }
    assert(src@.take(src@.len() as int) =~= src@);
}

/// The characters `v[from..to]`.
pub fn sub_chars(v: &Vec<char>, from: usize, to: usize) -> (r: Vec<char>)
    requires
        from <= to <= v@.len(),
    ensures
        r@ == v@.subrange(from as int, to as int),
{
    let mut r: Vec<char> = Vec::new();
    let mut i: usize = from;
    while i < to
        invariant
            from <= i <= to <= v@.len(),
            r@ == v@.subrange(from as int, i as int),
        decreases to - i,
    {
        r.push(v[i]);
        i = i + 1;
        assert(r@ =~= v@.subrange(from as int, i as int));
    }
    r
}

pub fn lower_chars(v: &Vec<char>) -> (r: Vec<char>)
    ensures
        r@ == lower_seq(v@),
{
    let mut r: Vec<char> = Vec::new();
    for i in 0..v.len()
        invariant
            r@ =~= lower_seq(v@.take(i as int)),
    {
        r.push(lower_char(v[i]));
    }
    assert(v@.take(v@.len() as int) =~= v@);
    r
}

pub fn upper_chars(v: &Vec<char>) -> (r: Vec<char>)
    ensures
        r@ == upper_seq(v@),
{
    let mut r: Vec<char> = Vec::new();
    for i in 0..v.len()
        invariant
            r@ =~= upper_seq(v@.take(i as int)),
    {
        r.push(upper_char(v[i]));
    }
    assert(v@.take(v@.len() as int) =~= v@);
    r
}

/// `str::trim` on characters.
pub fn trim_chars(v: &Vec<char>) -> (r: Vec<char>)
    ensures
        r@ == trim(v@),
{
    let n: usize = v.len();
    let mut i: usize = 0;
    assert(v@.skip(0) =~= v@);
    while i < n && is_white_space_char(v[i])
        invariant
            i <= n == v@.len(),
            trim_start(v@) == trim_start(v@.skip(i as int)),
        decreases n - i,
    {
        assert(v@.skip(i as int).drop_first() =~= v@.skip(i + 1));
        i = i + 1;
    }
    assert(trim_start(v@) == v@.subrange(i as int, n as int));
    let mut j: usize = n;
    while j > i && is_white_space_char(v[j - 1])
        invariant
            i <= j <= n == v@.len(),
            trim_end(v@.subrange(i as int, n as int)) == trim_end(
                v@.subrange(i as int, j as int),
            ),
        decreases j,
    {
        assert(v@.subrange(i as int, j as int).drop_last() =~= v@.subrange(
            i as int,
            j - 1,
        ));
        j = j - 1;
    }
    sub_chars(v, i, j)
}

/// Whether two character sequences are equal.
pub fn chars_eq(a: &Vec<char>, b: &Vec<char>) -> (r: bool)
    ensures
        r == (a@ == b@),
{
    if a.len() != b.len() {
        return false;
    }
    for i in 0..a.len()
        invariant
            a@.len() == b@.len(),
            forall|k: int| 0 <= k < i ==> a@[k] == b@[k],
    {
        if a[i] != b[i] {
            return false;
        }
    }
    assert(a@ =~= b@);
    true
}


// ---------------------------------------------------------------------------
// Splitting and joining
// ---------------------------------------------------------------------------

/// The predicate "is the character `c`".
pub open spec fn char_is(c: char) -> spec_fn(char) -> bool {
    |x: char| x == c
}

/// The predicate "is white space".
pub open spec fn white_space() -> spec_fn(char) -> bool {
    |x: char| is_white_space(x)
}

/// The pieces between separators, as `str::split` with a character predicate
/// yields them: one more piece than there are separators, empty pieces kept.
pub open spec fn split_by(s: Seq<char>, sep: spec_fn(char) -> bool) -> Seq<Seq<char>>
    decreases s.len(),
{
    if s.len() == 0 {
        seq![Seq::empty()]
    } else {
        let parts = split_by(s.drop_last(), sep);
        if sep(s.last()) {
            parts.push(Seq::empty())
        } else {
            parts.update(parts.len() - 1, parts.last().push(s.last()))
        }
    }
}

/// `str::split(c)`.
pub open spec fn split_on(s: Seq<char>, c: char) -> Seq<Seq<char>> {
    split_by(s, char_is(c))
}

/// The pieces that are not empty, in order.
pub open spec fn nonempty_parts(parts: Seq<Seq<char>>) -> Seq<Seq<char>>
    decreases parts.len(),
{
    if parts.len() == 0 {
        Seq::empty()
    } else if parts.last().len() == 0 {
        nonempty_parts(parts.drop_last())
    } else {
        nonempty_parts(parts.drop_last()).push(parts.last())
    }
}

/// `str::split_whitespace`: the maximal runs of characters that are not white space.
pub open spec fn words(s: Seq<char>) -> Seq<Seq<char>> {
    nonempty_parts(split_by(s, white_space()))
}

/// The pieces joined with `sep` between neighbours, as `[T]::join` does.
pub open spec fn join(parts: Seq<Seq<char>>, sep: Seq<char>) -> Seq<char>
    decreases parts.len(),
{
    if parts.len() == 0 {
        Seq::empty()
    } else if parts.len() == 1 {
        parts[0]
    } else {
        join(parts.drop_last(), sep) + sep + parts.last()
    }
}

/// The position of the first `c` in `s`, or `s.len()` where there is none.
pub open spec fn first_index(s: Seq<char>, c: char) -> nat
    decreases s.len(),
{
    if s.len() == 0 {
        0
    } else if s[0] == c {
        0
    } else {
        1 + first_index(s.drop_first(), c)
    }
}

/// `str::split_once(c)`: the text before and after the first `c`, if there is one.
pub open spec fn split_once(s: Seq<char>, c: char) -> Option<(Seq<char>, Seq<char>)> {
    let i = first_index(s, c);
    if i < s.len() {
        Some((s.take(i as int), s.skip(i + 1 as int)))
    } else {
        None
    }
}

/// What separates the pieces of a split.
pub enum Separator {
    Char(char),
    WhiteSpace,
}

impl Separator {
    pub open spec fn pred(self) -> spec_fn(char) -> bool {
        match self {
            Separator::Char(c) => char_is(c),
            Separator::WhiteSpace => white_space(),
        }
    }

    fn matches(&self, c: char) -> (r: bool)
        ensures
            r == (self.pred())(c),
    {
        match self {
            Separator::Char(d) => c == *d,
            Separator::WhiteSpace => is_white_space_char(c),
        }
    }
}

fn split_chars(v: &Vec<char>, sep: Separator) -> (parts: Vec<Vec<char>>)
    ensures
        parts.deep_view() == split_by(v@, sep.pred()),
{
    let mut parts: Vec<Vec<char>> = Vec::new();
    let mut cur: Vec<char> = Vec::new();
    for i in 0..v.len()
        invariant
            split_by(v@.take(i as int), sep.pred()) == parts.deep_view().push(cur@),
    {
        let ghost old_parts = parts.deep_view();
        let ghost old_cur = cur@;
        assert(v@.take(i + 1).drop_last() =~= v@.take(i as int));
        if sep.matches(v[i]) {
            assert(cur.deep_view() =~= cur@);
            parts.push(cur);
            cur = Vec::new();
            assert(parts.deep_view() =~= old_parts.push(old_cur));
            assert(split_by(v@.take(i + 1), sep.pred()) =~= parts.deep_view().push(cur@));
        } else {
            cur.push(v[i]);
            assert(split_by(v@.take(i + 1), sep.pred()) =~= parts.deep_view().push(cur@));
        }
    }
    let ghost old_parts = parts.deep_view();
    assert(cur.deep_view() =~= cur@);
    parts.push(cur);
    assert(parts.deep_view() =~= old_parts.push(cur@));
    assert(v@.take(v@.len() as int) =~= v@);
    parts
}

/// `str::split(c)` on characters.
pub fn split_chars_on(v: &Vec<char>, c: char) -> (parts: Vec<Vec<char>>)
    ensures
        parts.deep_view() == split_on(v@, c),
{
    split_chars(v, Separator::Char(c))
}

/// The pieces that are not empty.
pub fn nonempty_chars(parts: &Vec<Vec<char>>) -> (r: Vec<Vec<char>>)
    ensures
        r.deep_view() == nonempty_parts(parts.deep_view()),
{
    let mut r: Vec<Vec<char>> = Vec::new();
    for i in 0..parts.len()
        invariant
            r.deep_view() == nonempty_parts(parts.deep_view().take(i as int)),
    {
        let ghost before = r.deep_view();
        assert(parts.deep_view().take(i + 1).drop_last() =~= parts.deep_view().take(i as int));
        assert(parts[i as int].deep_view() =~= parts[i as int]@);
        if parts[i].len() > 0 {
            let p = sub_chars(&parts[i], 0, parts[i].len());
            assert(p@ =~= parts[i as int]@);
            assert(p.deep_view() =~= p@);
            r.push(p);
            assert(r.deep_view() =~= before.push(parts.deep_view()[i as int]));
        }
    }
    assert(parts.deep_view().take(parts.len() as int) =~= parts.deep_view());
    r
}

/// `str::split_whitespace` on characters.
pub fn words_of(v: &Vec<char>) -> (r: Vec<Vec<char>>)
    ensures
        r.deep_view() == words(v@),
{
    let parts = split_chars(v, Separator::WhiteSpace);
    nonempty_chars(&parts)
}

/// `[T]::join` on character pieces.
pub fn join_chars(parts: &Vec<Vec<char>>, sep: &Vec<char>) -> (r: Vec<char>)
    ensures
        r@ == join(parts.deep_view(), sep@),
{
    let mut r: Vec<char> = Vec::new();
    for i in 0..parts.len()
        invariant
            r@ == join(parts.deep_view().take(i as int), sep@),
    {
        assert(parts.deep_view().take(i + 1).drop_last() =~= parts.deep_view().take(i as int));
        assert(parts[i as int].deep_view() =~= parts[i as int]@);
        if i > 0 {
            append_chars(&mut r, sep);
        }
        append_chars(&mut r, &parts[i]);
        assert(r@ =~= join(parts.deep_view().take(i + 1), sep@));
    }
    assert(parts.deep_view().take(parts.len() as int) =~= parts.deep_view());
    r
}

/// The position of the first `c`, or the length where there is none.
pub fn find_char(v: &Vec<char>, c: char) -> (r: usize)
    ensures
        r == first_index(v@, c),
        r <= v@.len(),
{
    let n: usize = v.len();
    let mut i: usize = 0;
    assert(v@.skip(0) =~= v@);
    while i < n && v[i] != c
        invariant
            i <= n == v@.len(),
            first_index(v@, c) == i + first_index(v@.skip(i as int), c),
        decreases n - i,
    {
        assert(v@.skip(i as int).drop_first() =~= v@.skip(i + 1));
        i = i + 1;
    }
    i
}

/// `str::split_once(c)` on characters.
pub fn split_once_chars(v: &Vec<char>, c: char) -> (r: Option<(Vec<char>, Vec<char>)>)
    ensures
        match r {
            Some((a, b)) => split_once(v@, c) == Some((a@, b@)),
            None => split_once(v@, c) is None,
        },
{
    let i: usize = find_char(v, c);
    if i < v.len() {
        Some((sub_chars(v, 0, i), sub_chars(v, i + 1, v.len())))
    } else {
        None
    }
}

/// Whether `p` is a prefix of `v`.
pub fn starts_with_chars(v: &Vec<char>, p: &Vec<char>) -> (r: bool)
    ensures
        r == p@.is_prefix_of(v@),
{
    if p.len() > v.len() {
        return false;
    }
    for i in 0..p.len()
        invariant
            p@.len() <= v@.len(),
            forall|k: int| 0 <= k < i ==> p@[k] == v@[k],
    {
        if p[i] != v[i] {
            return false;
        }
    }
    assert(p@ =~= v@.subrange(0, p@.len() as int));
    true
}

/// Whether `p` is a suffix of `v`.
pub fn ends_with_chars(v: &Vec<char>, p: &Vec<char>) -> (r: bool)
    ensures
        r == p@.is_suffix_of(v@),
{
    if p.len() > v.len() {
        return false;
    }
    let vlen: usize = v.len();
    let off: usize = vlen - p.len();
    let plen: usize = p.len();
    for i in 0..plen
        invariant
            p@.len() <= v@.len(),
            off + p@.len() == v@.len(),
            plen == p@.len(),
            vlen == v@.len(),
            forall|k: int| 0 <= k < i ==> p@[k] == v@[off + k],
    {
        if p[i] != v[off + i] {
            assert(v@.subrange(off as int, v@.len() as int)[i as int] == v@[off + i]);
            return false;
        }
    }
    assert(p@ =~= v@.subrange(off as int, v@.len() as int));
    true
}

/// Whether `x` occurs in `list`.
pub fn contains_chars(list: &Vec<Vec<char>>, x: &Vec<char>) -> (r: bool)
    ensures
        r == list.deep_view().contains(x@),
{
    for i in 0..list.len()
        invariant
            forall|k: int| 0 <= k < i ==> list.deep_view()[k] != x@,
    {
        assert(list[i as int].deep_view() =~= list[i as int]@);
        if chars_eq(&list[i], x) {
            assert(list.deep_view()[i as int] == x@);
            return true;
        }
    }
    false
}

/// Whether some element of `list` is a prefix of `x`.
pub fn has_prefix_in(list: &Vec<Vec<char>>, x: &Vec<char>) -> (r: bool)
    ensures
        r == exists|k: int| 0 <= k < list@.len() && (#[trigger] list.deep_view()[k]).is_prefix_of(x@),
{
    for i in 0..list.len()
        invariant
            forall|k: int| 0 <= k < i ==> !(#[trigger] list.deep_view()[k]).is_prefix_of(x@),
    {
        assert(list[i as int].deep_view() =~= list[i as int]@);
        if starts_with_chars(x, &list[i]) {
            assert(list.deep_view()[i as int].is_prefix_of(x@));
            return true;
        }
    }
    false
}


/// ASCII case-insensitive equality of two character sequences.
pub fn eq_ignore_ascii_case_chars(a: &Vec<char>, b: &Vec<char>) -> (r: bool)
    ensures
        r == eq_ignore_ascii_case(a@, b@),
{
    if a.len() != b.len() {
        return false;
    }
    for i in 0..a.len()
        invariant
            a@.len() == b@.len(),
            forall|k: int| 0 <= k < i ==> ascii_lower(#[trigger] a@[k]) == ascii_lower(b@[k]),
    {
        if lower_char(a[i]) != lower_char(b[i]) {
            return false;
        }
    }
    true
}


// ---------------------------------------------------------------------------
// Laws of splitting and joining
// ---------------------------------------------------------------------------

/// No character of `s` is a separator.
pub open spec fn free_of(s: Seq<char>, sep: spec_fn(char) -> bool) -> bool {
    forall|i: int| 0 <= i < s.len() ==> !sep(#[trigger] s[i])
}

/// A split always yields at least one piece.
pub proof fn lemma_split_by_len(s: Seq<char>, sep: spec_fn(char) -> bool)
    ensures
        split_by(s, sep).len() >= 1,
    decreases s.len(),
{
    if s.len() > 0 {
        lemma_split_by_len(s.drop_last(), sep);
    }
}

/// No piece of a split holds a separator.
pub proof fn lemma_split_by_free(s: Seq<char>, sep: spec_fn(char) -> bool)
    ensures
        forall|k: int| 0 <= k < split_by(s, sep).len() ==> free_of(#[trigger] split_by(s, sep)[k], sep),
    decreases s.len(),
{
    if s.len() > 0 {
        lemma_split_by_free(s.drop_last(), sep);
        lemma_split_by_len(s.drop_last(), sep);
        let parts = split_by(s.drop_last(), sep);
        if !sep(s.last()) {
            let last = parts.last().push(s.last());
            assert(free_of(last, sep)) by {
                assert(free_of(parts[parts.len() - 1], sep));
            }
        }
    }
}

/// A text without separators is its own single piece.
pub proof fn lemma_split_by_free_single(s: Seq<char>, sep: spec_fn(char) -> bool)
    requires
        free_of(s, sep),
    ensures
        split_by(s, sep) == seq![s],
    decreases s.len(),
{
    if s.len() > 0 {
        lemma_split_by_free_single(s.drop_last(), sep);
        assert(seq![s.drop_last().push(s.last())] =~= seq![s]) by {
            assert(s.drop_last().push(s.last()) =~= s);
        }
    } else {
        assert(s =~= Seq::<char>::empty());
    }
}

/// Splitting around a separator splits each side.
pub proof fn lemma_split_by_concat(
    x: Seq<char>,
    d: char,
    y: Seq<char>,
    sep: spec_fn(char) -> bool,
)
    requires
        sep(d),
    ensures
        split_by(x + seq![d] + y, sep) == split_by(x, sep) + split_by(y, sep),
    decreases y.len(),
{
    let s = x + seq![d] + y;
    if y.len() == 0 {
        assert(s.drop_last() =~= x);
        assert(split_by(x, sep).push(Seq::empty()) =~= split_by(x, sep) + seq![Seq::<char>::empty()]);
    } else {
        let y1 = y.drop_last();
        assert(s.drop_last() =~= x + seq![d] + y1);
        lemma_split_by_concat(x, d, y1, sep);
        lemma_split_by_len(y1, sep);
        let a = split_by(x, sep);
        let b = split_by(y1, sep);
        if sep(y.last()) {
            assert((a + b).push(Seq::empty()) =~= a + b.push(Seq::empty()));
        } else {
            assert((a + b).update((a + b).len() - 1, (a + b).last().push(y.last())) =~= a
                + b.update(b.len() - 1, b.last().push(y.last())));
        }
    }
}

/// Splitting a join of separator-free pieces gives the pieces back.
pub proof fn lemma_split_join(parts: Seq<Seq<char>>, d: char, sep: spec_fn(char) -> bool)
    requires
        parts.len() >= 1,
        sep(d),
        forall|k: int| 0 <= k < parts.len() ==> free_of(#[trigger] parts[k], sep),
    ensures
        split_by(join(parts, seq![d]), sep) == parts,
    decreases parts.len(),
{
    if parts.len() == 1 {
        lemma_split_by_free_single(parts[0], sep);
        assert(seq![parts[0]] =~= parts);
    } else {
        let init = parts.drop_last();
        assert(free_of(parts[parts.len() - 1], sep));
        assert forall|k: int| 0 <= k < init.len() implies free_of(#[trigger] init[k], sep) by {
            assert(free_of(parts[k], sep));
        }
        lemma_split_join(init, d, sep);
        lemma_split_by_concat(join(init, seq![d]), d, parts.last(), sep);
        lemma_split_by_free_single(parts.last(), sep);
        assert(init + seq![parts.last()] =~= parts);
    }
}

/// Joining the pieces of a split with the separator gives the text back.
pub proof fn lemma_join_split(s: Seq<char>, c: char)
    ensures
        join(split_on(s, c), seq![c]) == s,
    decreases s.len(),
{
    lemma_split_by_len(s, char_is(c));
    if s.len() > 0 {
        let s1 = s.drop_last();
        lemma_join_split(s1, c);
        lemma_split_by_len(s1, char_is(c));
        let parts = split_on(s1, c);
        lemma_join_last(parts, seq![c]);
        if s.last() == c {
            lemma_join_push(parts, Seq::empty(), seq![c]);
            assert(s1 + seq![c] + Seq::<char>::empty() =~= s);
        } else {
            let n = parts.len();
            let updated = parts.update(n - 1, parts.last().push(s.last()));
            lemma_join_last(updated, seq![c]);
            assert(updated.drop_last() =~= parts.drop_last());
            if n == 1 {
                assert(join(updated, seq![c]) == updated[0]);
                assert(join(parts, seq![c]) == parts[0]);
                assert(s =~= s1.push(s.last()));
            } else {
                assert(join(updated, seq![c]) == join(parts.drop_last(), seq![c]) + seq![c]
                    + parts.last().push(s.last()));
                assert(join(parts, seq![c]) == join(parts.drop_last(), seq![c]) + seq![c]
                    + parts.last());
                assert(s =~= s1.push(s.last()));
                assert(join(parts.drop_last(), seq![c]) + seq![c] + parts.last().push(s.last())
                    =~= (join(parts.drop_last(), seq![c]) + seq![c] + parts.last()).push(
                    s.last(),
                ));
            }
        }
    }
}

proof fn lemma_join_last(parts: Seq<Seq<char>>, sep: Seq<char>)
    requires
        parts.len() >= 1,
    ensures
        parts.len() == 1 ==> join(parts, sep) == parts[0],
        parts.len() > 1 ==> join(parts, sep) == join(parts.drop_last(), sep) + sep + parts.last(),
{
}

proof fn lemma_join_push(parts: Seq<Seq<char>>, x: Seq<char>, sep: Seq<char>)
    requires
        parts.len() >= 1,
    ensures
        join(parts.push(x), sep) == join(parts, sep) + sep + x,
{
    assert(parts.push(x).drop_last() =~= parts);
}


/// Pieces of a text free of some characters are free of them too.
pub proof fn lemma_split_by_pieces_free(
    s: Seq<char>,
    sep: spec_fn(char) -> bool,
    q: spec_fn(char) -> bool,
)
    requires
        free_of(s, q),
    ensures
        forall|k: int| 0 <= k < split_by(s, sep).len() ==> free_of(#[trigger] split_by(s, sep)[k], q),
    decreases s.len(),
{
    if s.len() > 0 {
        let init = s.drop_last();
        assert(free_of(init, q)) by {
            assert forall|i: int| 0 <= i < init.len() implies !q(#[trigger] init[i]) by {
                assert(init[i] == s[i]);
            }
        }
        lemma_split_by_pieces_free(init, sep, q);
        lemma_split_by_len(init, sep);
        let parts = split_by(init, sep);
        assert(!q(s[s.len() - 1]));
        if !sep(s.last()) {
            assert(free_of(parts[parts.len() - 1], q));
            assert(free_of(parts.last().push(s.last()), q));
        }
    }
}

/// A join of pieces and a separator free of some characters is free of them.
pub proof fn lemma_join_free(parts: Seq<Seq<char>>, sep: Seq<char>, q: spec_fn(char) -> bool)
    requires
        forall|k: int| 0 <= k < parts.len() ==> free_of(#[trigger] parts[k], q),
        free_of(sep, q),
    ensures
        free_of(join(parts, sep), q),
    decreases parts.len(),
{
    if parts.len() == 1 {
        assert(free_of(parts[0], q));
    } else if parts.len() > 1 {
        let init = parts.drop_last();
        assert forall|k: int| 0 <= k < init.len() implies free_of(#[trigger] init[k], q) by {
            assert(free_of(parts[k], q));
        }
        lemma_join_free(init, sep, q);
        assert(free_of(parts[parts.len() - 1], q));
        let a = join(init, sep);
        let j = a + sep + parts.last();
        assert forall|i: int| 0 <= i < j.len() implies !q(#[trigger] j[i]) by {
            if i < a.len() {
                assert(j[i] == a[i]);
            } else if i < a.len() + sep.len() {
                assert(j[i] == sep[i - a.len()]);
            } else {
                assert(j[i] == parts.last()[i - a.len() - sep.len()]);
            }
        }
    }
}

/// Lower-casing a join lower-cases every piece and the separator.
pub proof fn lemma_lower_join(parts: Seq<Seq<char>>, sep: Seq<char>)
    ensures
        lower_seq(join(parts, sep)) == join(parts.map_values(|p: Seq<char>| lower_seq(p)), lower_seq(sep)),
    decreases parts.len(),
{
    let lp = parts.map_values(|p: Seq<char>| lower_seq(p));
    if parts.len() == 0 {
        assert(lower_seq(join(parts, sep)) =~= Seq::<char>::empty());
    } else if parts.len() == 1 {
        assert(lp[0] == lower_seq(parts[0]));
    } else {
        let init = parts.drop_last();
        lemma_lower_join(init, sep);
        assert(lp.drop_last() =~= init.map_values(|p: Seq<char>| lower_seq(p)));
        assert(lp.last() == lower_seq(parts.last()));
        assert(lower_seq(join(init, sep) + sep + parts.last()) =~= lower_seq(join(init, sep))
            + lower_seq(sep) + lower_seq(parts.last()));
    }
}

/// Lower-casing twice is lower-casing once.
pub proof fn lemma_lower_idempotent(s: Seq<char>)
    ensures
        lower_seq(lower_seq(s)) == lower_seq(s),
{
    assert(lower_seq(lower_seq(s)) =~= lower_seq(s));
}

/// What the first position of `c` means: nothing before it is `c`, and it is
/// `c` unless it is the length.
pub proof fn lemma_first_index(s: Seq<char>, c: char)
    ensures
        first_index(s, c) <= s.len(),
        first_index(s, c) < s.len() ==> s[first_index(s, c) as int] == c,
        forall|j: int| 0 <= j < first_index(s, c) ==> s[j] != c,
    decreases s.len(),
{
    if s.len() > 0 && s[0] != c {
        lemma_first_index(s.drop_first(), c);
        assert forall|j: int| 0 <= j < first_index(s, c) implies s[j] != c by {
            if j > 0 {
                assert(s[j] == s.drop_first()[j - 1]);
            }
        }
    }
}

/// The first `c` of `x + y` where `x` holds none is the first `c` of `y`,
/// shifted.
pub proof fn lemma_first_index_concat(x: Seq<char>, y: Seq<char>, c: char)
    requires
        free_of(x, char_is(c)),
    ensures
        first_index(x + y, c) == x.len() + first_index(y, c),
    decreases x.len(),
{
    if x.len() == 0 {
        assert(x + y =~= y);
    } else {
        assert(!(char_is(c))(x[0]));
        assert((x + y)[0] == x[0]);
        assert((x + y).drop_first() =~= x.drop_first() + y);
        assert(free_of(x.drop_first(), char_is(c))) by {
            assert forall|i: int| 0 <= i < x.drop_first().len() implies !(char_is(c))(
                #[trigger] x.drop_first()[i],
            ) by {
                assert(x.drop_first()[i] == x[i + 1]);
            }
        }
        lemma_first_index_concat(x.drop_first(), y, c);
    }
}

} // verus!
