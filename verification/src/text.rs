//! Character-level text helpers: trimming, substring search, splitting,
//! joining, decimal rendering and ordering of character sequences.

use vstd::prelude::*;
use vstd::string::*;

verus! {

broadcast use vstd::string::group_string_axioms;

/// The character sequences of `v`.
pub open spec fn strings_view(v: Seq<String>) -> Seq<Seq<char>> {
    v.map_values(|s: String| s@)
}

/// The character sequence of `o`, if any.
pub open spec fn opt_string_view(o: Option<String>) -> Option<Seq<char>> {
    match o {
        Some(s) => Some(s@),
        None => None,
    }
}

// ---------------------------------------------------------------------------
// Whitespace and trimming
// ---------------------------------------------------------------------------

/// Unicode `White_Space`, the set that `char::is_whitespace` tests.
pub open spec fn is_whitespace(c: char) -> bool {
    let u = c as u32;
    ||| 9 <= u <= 13
    ||| u == 32
    ||| u == 0x85
    ||| u == 0xA0
    ||| u == 0x1680
    ||| 0x2000 <= u <= 0x200A
    ||| u == 0x2028
    ||| u == 0x2029
    ||| u == 0x202F
    ||| u == 0x205F
    ||| u == 0x3000
}

pub fn char_is_whitespace(c: char) -> (b: bool)
    ensures
        b == is_whitespace(c),
{
    let u = c as u32;
    (9 <= u && u <= 13) || u == 32 || u == 0x85 || u == 0xA0 || u == 0x1680 || (0x2000 <= u && u
        <= 0x200A) || u == 0x2028 || u == 0x2029 || u == 0x202F || u == 0x205F || u == 0x3000
}

/// `s` without its leading whitespace.
pub open spec fn trim_start(s: Seq<char>) -> Seq<char>
    decreases s.len(),
{
    if s.len() > 0 && is_whitespace(s[0]) {
        trim_start(s.drop_first())
    } else {
        s
    }
}

/// `s` without its trailing whitespace.
pub open spec fn trim_end(s: Seq<char>) -> Seq<char>
    decreases s.len(),
{
    if s.len() > 0 && is_whitespace(s.last()) {
        trim_end(s.drop_last())
    } else {
        s
    }
}

/// `s` without leading and trailing whitespace, as `str::trim` gives it.
pub open spec fn trim(s: Seq<char>) -> Seq<char> {
    trim_end(trim_start(s))
}

proof fn lemma_trim_start_skip(s: Seq<char>, a: int)
    requires
        0 <= a <= s.len(),
        forall|k: int| 0 <= k < a ==> is_whitespace(#[trigger] s[k]),
    ensures
        trim_start(s) == trim_start(s.subrange(a, s.len() as int)),
    decreases a,
{
    if a > 0 {
        lemma_trim_start_skip(s, a - 1);
        let t = s.subrange(a - 1, s.len() as int);
        assert(t[0] == s[a - 1]);
        assert(is_whitespace(s[a - 1]));
        assert(t.drop_first() =~= s.subrange(a, s.len() as int));
        assert(trim_start(t) == trim_start(t.drop_first()));
    } else {
        assert(s.subrange(0, s.len() as int) =~= s);
    }
}

proof fn lemma_trim_end_cut(s: Seq<char>, b: int)
    requires
        0 <= b <= s.len(),
        forall|k: int| b <= k < s.len() ==> is_whitespace(#[trigger] s[k]),
    ensures
        trim_end(s) == trim_end(s.subrange(0, b)),
    decreases s.len() - b,
{
    if b < s.len() {
        lemma_trim_end_cut(s, b + 1);
        let t = s.subrange(0, b + 1);
        assert(t.last() == s[b]);
        assert(t.drop_last() =~= s.subrange(0, b));
    } else {
        assert(s.subrange(0, b) =~= s);
    }
}

/// A sequence that holds no whitespace trims to itself.
pub proof fn lemma_trim_no_whitespace(s: Seq<char>)
    requires
        forall|k: int| 0 <= k < s.len() ==> !is_whitespace(#[trigger] s[k]),
    ensures
        trim(s) == s,
{
    if s.len() > 0 {
        assert(!is_whitespace(s[0]));
        assert(!is_whitespace(s[s.len() - 1]));
    }
}

proof fn lemma_trim_start_shape(s: Seq<char>)
    ensures
        trim_start(s).len() == 0 || !is_whitespace(trim_start(s)[0]),
        trim_start(s).len() <= s.len(),
    decreases s.len(),
{
    if s.len() > 0 && is_whitespace(s[0]) {
        lemma_trim_start_shape(s.drop_first());
    }
}

proof fn lemma_trim_end_shape(s: Seq<char>)
    ensures
        trim_end(s).len() <= s.len(),
        trim_end(s) == s.subrange(0, trim_end(s).len() as int),
        trim_end(s).len() == 0 || !is_whitespace(trim_end(s).last()),
    decreases s.len(),
{
    if s.len() > 0 && is_whitespace(s.last()) {
        lemma_trim_end_shape(s.drop_last());
        let t = trim_end(s.drop_last());
        assert(s.drop_last().subrange(0, t.len() as int) =~= s.subrange(0, t.len() as int));
    } else {
        assert(s.subrange(0, s.len() as int) =~= s);
    }
}

/// Trimming twice trims no more than trimming once.
pub proof fn law_trim_idempotent(s: Seq<char>)
    ensures
        trim(trim(s)) == trim(s),
{
    let x = trim_start(s);
    lemma_trim_start_shape(s);
    lemma_trim_end_shape(x);
    let y = trim_end(x);
    if y.len() > 0 {
        assert(y[0] == x[0]);
    }
    assert(trim_start(y) == y);
    assert(trim_end(y) == y);
}

proof fn lemma_trim_start_index(s: Seq<char>) -> (a: int)
    ensures
        0 <= a <= s.len(),
        trim_start(s) == s.subrange(a, s.len() as int),
        forall|k: int| 0 <= k < a ==> is_whitespace(#[trigger] s[k]),
    decreases s.len(),
{
    if s.len() > 0 && is_whitespace(s[0]) {
        let t = s.drop_first();
        let a = lemma_trim_start_index(t);
        assert(t.subrange(a, t.len() as int) =~= s.subrange(a + 1, s.len() as int));
        assert forall|k: int| 0 <= k < a + 1 implies is_whitespace(#[trigger] s[k]) by {
            if k > 0 {
                assert(s[k] == t[k - 1]);
            }
        }
        a + 1
    } else {
        assert(s.subrange(0, s.len() as int) =~= s);
        0
    }
}

proof fn lemma_trim_end_index(s: Seq<char>) -> (b: int)
    ensures
        0 <= b <= s.len(),
        trim_end(s) == s.subrange(0, b),
        forall|k: int| b <= k < s.len() ==> is_whitespace(#[trigger] s[k]),
    decreases s.len(),
{
    if s.len() > 0 && is_whitespace(s.last()) {
        let t = s.drop_last();
        let b = lemma_trim_end_index(t);
        assert(t.subrange(0, b) =~= s.subrange(0, b));
        assert forall|k: int| b <= k < s.len() implies is_whitespace(#[trigger] s[k]) by {
            if k < s.len() - 1 {
                assert(s[k] == t[k]);
            }
        }
        b
    } else {
        assert(s.subrange(0, s.len() as int) =~= s);
        s.len() as int
    }
}

/// A word free of whitespace occurs in a text exactly when it occurs in
/// the trimmed text.
pub proof fn law_trim_keeps_words(l: Seq<char>, m: Seq<char>)
    requires
        m.len() > 0,
        forall|k: int| 0 <= k < m.len() ==> !is_whitespace(#[trigger] m[k]),
    ensures
        has_substring(trim(l), m) == has_substring(l, m),
{
    let a = lemma_trim_start_index(l);
    let u = l.subrange(a, l.len() as int);
    let b = lemma_trim_end_index(u);
    let t = trim(l);
    assert(t =~= l.subrange(a, a + b));
    if has_substring(l, m) {
        let i = choose|i: int| matches_at(l, m, i);
        assert(l[i] == l.subrange(i, i + m.len())[0]);
        assert(!is_whitespace(m[0]));
        assert(l.subrange(i, i + m.len())[m.len() - 1] == l[i + m.len() - 1]);
        assert(!is_whitespace(m[m.len() - 1]));
        if i + m.len() - 1 >= a + b {
            assert(u[i + m.len() - 1 - a] == l[i + m.len() - 1]);
        }
        assert(t.subrange(i - a, i - a + m.len()) =~= l.subrange(i, i + m.len()));
        assert(matches_at(t, m, i - a));
    }
    if has_substring(t, m) {
        let j = choose|j: int| matches_at(t, m, j);
        assert(l.subrange(j + a, j + a + m.len()) =~= t.subrange(j, j + m.len()));
        assert(matches_at(l, m, j + a));
    }
}

/// Bounds `(a, b)` with `v[a..b]` the trimmed text.
pub fn trim_bounds(v: &Vec<char>) -> (r: (usize, usize))
    ensures
        r.0 <= r.1 <= v.len(),
        v@.subrange(r.0 as int, r.1 as int) == trim(v@),
{
    let n = v.len();
    let mut a: usize = 0;
    while a < n && char_is_whitespace(v[a])
        invariant
            n == v.len(),
            a <= n,
            forall|k: int| 0 <= k < a ==> is_whitespace(#[trigger] v@[k]),
        decreases n - a,
    {
        a = a + 1;
    }
    proof {
        lemma_trim_start_skip(v@, a as int);
        let t = v@.subrange(a as int, n as int);
        if a < n {
            assert(t[0] == v@[a as int]);
        }
        assert(trim_start(v@) == t);
    }
    let mut b: usize = n;
    while b > a && char_is_whitespace(v[b - 1])
        invariant
            n == v.len(),
            a <= b <= n,
            forall|k: int| b <= k < n ==> is_whitespace(#[trigger] v@[k]),
        decreases b,
    {
        b = b - 1;
    }
    proof {
        let t = v@.subrange(a as int, n as int);
        assert forall|k: int| (b - a) <= k < t.len() implies is_whitespace(#[trigger] t[k]) by {
            assert(t[k] == v@[k + a]);
        }
        lemma_trim_end_cut(t, (b - a) as int);
        let u = t.subrange(0, (b - a) as int);
        assert(u =~= v@.subrange(a as int, b as int));
        if b > a {
            assert(u.last() == v@[b - 1]);
        }
        assert(trim_end(u) == u);
    }
    (a, b)
}

// ---------------------------------------------------------------------------
// Copies and character access
// ---------------------------------------------------------------------------

/// The characters of `s`, in order.
pub fn chars_of(s: &str) -> (v: Vec<char>)
    ensures
        v@ == s@,
{
    let mut v: Vec<char> = Vec::new();
    for c in it: s.chars()
        invariant
            v@ == it.seq().take(it.index() as int),
    {
        v.push(c);
    }
    v
}

/// The characters `v[lo..hi]` as a new vector.
pub fn sub_vec(v: &Vec<char>, lo: usize, hi: usize) -> (w: Vec<char>)
    requires
        lo <= hi <= v.len(),
    ensures
        w@ == v@.subrange(lo as int, hi as int),
{
    let mut w: Vec<char> = Vec::new();
    let mut i = lo;
    while i < hi
        invariant
            lo <= i <= hi <= v.len(),
            w@ == v@.subrange(lo as int, i as int),
        decreases hi - i,
    {
        w.push(v[i]);
        i = i + 1;
    }
    w
}

// ---------------------------------------------------------------------------
// Substring search
// ---------------------------------------------------------------------------

/// `pat` occurs in `hay` starting at index `i`.
pub open spec fn matches_at(hay: Seq<char>, pat: Seq<char>, i: int) -> bool {
    0 <= i && i + pat.len() <= hay.len() && hay.subrange(i, i + pat.len()) == pat
}

/// `pat` occurs somewhere in `hay`, as `str::contains` tests.
pub open spec fn has_substring(hay: Seq<char>, pat: Seq<char>) -> bool {
    exists|i: int| matches_at(hay, pat, i)
}

/// `i` is the leftmost occurrence of `pat` in `hay`.
pub open spec fn is_first_match(hay: Seq<char>, pat: Seq<char>, i: int) -> bool {
    &&& matches_at(hay, pat, i)
    &&& forall|j: int| 0 <= j < i ==> !matches_at(hay, pat, j)
}

/// The leftmost occurrence of `pat` in `hay` (meaningful when there is one).
pub open spec fn first_match(hay: Seq<char>, pat: Seq<char>) -> int {
    choose|i: int| is_first_match(hay, pat, i)
}

pub proof fn lemma_first_match_unique(hay: Seq<char>, pat: Seq<char>, i: int)
    requires
        is_first_match(hay, pat, i),
    ensures
        first_match(hay, pat) == i,
{
    let w = first_match(hay, pat);
    assert(is_first_match(hay, pat, w));
    if w < i {
        assert(!matches_at(hay, pat, w));
    } else if w > i {
        assert(!matches_at(hay, pat, i));
    }
}

fn matches_at_exec(hay: &Vec<char>, pat: &Vec<char>, i: usize) -> (b: bool)
    requires
        i + pat.len() <= hay.len(),
    ensures
        b == matches_at(hay@, pat@, i as int),
{
    let m = pat.len();
    let mut k: usize = 0;
    while k < m
        invariant
            m == pat.len(),
            i + m <= hay.len(),
            k <= m,
            forall|t: int| 0 <= t < k ==> hay@[i + t] == pat@[t],
        decreases m - k,
    {
        if hay[i + k] != pat[k] {
            proof {
                let s = hay@.subrange(i as int, i + m);
                assert(s[k as int] != pat@[k as int]);
            }
            return false;
        }
        k = k + 1;
    }
    assert(hay@.subrange(i as int, i + m) =~= pat@);
    true
}

/// Leftmost occurrence of `pat` in `hay`, as `str::find` gives it.
pub fn find(hay: &Vec<char>, pat: &Vec<char>) -> (r: Option<usize>)
    ensures
        match r {
            Some(i) => is_first_match(hay@, pat@, i as int),
            None => !has_substring(hay@, pat@),
        },
{
    if pat.len() > hay.len() {
        return None;
    }
    let last = hay.len() - pat.len();
    let mut i: usize = 0;
    loop
        invariant
            last + pat.len() == hay.len(),
            i <= last,
            forall|j: int| 0 <= j < i ==> !matches_at(hay@, pat@, j),
        decreases last - i,
    {
        if matches_at_exec(hay, pat, i) {
            return Some(i);
        }
        if i == last {
            return None;
        }
        i = i + 1;
    }
}

// ---------------------------------------------------------------------------
// Splitting at separator characters
// ---------------------------------------------------------------------------

/// A separator between race names: a comma or whitespace.
pub open spec fn is_list_sep(c: char) -> bool {
    c == ',' || is_whitespace(c)
}

/// The separator predicate of a race list.
pub open spec fn list_sep() -> spec_fn(char) -> bool {
    |c: char| is_list_sep(c)
}

/// The pieces of `s` between characters that satisfy `sep`, empty ones
/// included, as `str::split` with a character predicate yields them.
pub open spec fn split_pieces(s: Seq<char>, sep: spec_fn(char) -> bool) -> Seq<Seq<char>>
    decreases s.len(),
{
    if s.len() == 0 {
        seq![Seq::empty()]
    } else {
        let p = split_pieces(s.drop_last(), sep);
        if sep(s.last()) {
            p.push(Seq::empty())
        } else {
            p.update(p.len() - 1, p.last().push(s.last()))
        }
    }
}

pub proof fn lemma_split_after_sep(a: Seq<char>, b: Seq<char>, sep: spec_fn(char) -> bool)
    requires
        a.len() > 0,
        sep(a.last()),
    ensures
        split_pieces(a + b, sep) == split_pieces(a, sep).drop_last() + split_pieces(b, sep),
    decreases b.len(),
{
    lemma_split_pieces_shape(b, sep);
    if b.len() == 0 {
        assert(a + b =~= a);
        assert(a.drop_last().push(a.last()) =~= a);
        lemma_split_pieces_push(a.drop_last(), sep, a.last());
        assert(split_pieces(a, sep).drop_last() + split_pieces(b, sep) =~= split_pieces(a, sep));
    } else {
        let b1 = b.drop_last();
        let c = b.last();
        lemma_split_after_sep(a, b1, sep);
        lemma_split_pieces_shape(b1, sep);
        assert(a + b =~= (a + b1).push(c));
        assert(b =~= b1.push(c));
        lemma_split_pieces_push(a + b1, sep, c);
        lemma_split_pieces_push(b1, sep, c);
        let x = split_pieces(a, sep).drop_last();
        let y = split_pieces(b1, sep);
        if sep(c) {
            assert((x + y).push(Seq::empty()) =~= x + y.push(Seq::empty()));
        } else {
            assert((x + y).update((x + y).len() - 1, (x + y).last().push(c)) =~= x + y.update(
                y.len() - 1,
                y.last().push(c),
            ));
        }
    }
}

pub open spec fn is_nonempty() -> spec_fn(Seq<char>) -> bool {
    |p: Seq<char>| p.len() > 0
}

pub open spec fn trimmed() -> spec_fn(Seq<char>) -> Seq<char> {
    |p: Seq<char>| trim(p)
}

/// The non-empty trimmed pieces of `s`: the names in a comma- or
/// space-separated list.
pub open spec fn list_items(s: Seq<char>) -> Seq<Seq<char>> {
    split_pieces(s, list_sep()).map_values(trimmed()).filter(is_nonempty())
}

pub proof fn lemma_split_pieces_shape(s: Seq<char>, sep: spec_fn(char) -> bool)
    ensures
        split_pieces(s, sep).len() >= 1,
        forall|k: int, t: int|
            0 <= k < split_pieces(s, sep).len() && 0 <= t < split_pieces(s, sep)[k].len() ==> !sep(
                #[trigger] split_pieces(s, sep)[k][t],
            ),
    decreases s.len(),
{
    if s.len() > 0 {
        lemma_split_pieces_shape(s.drop_last(), sep);
        let p = split_pieces(s.drop_last(), sep);
        if !sep(s.last()) {
            let q = split_pieces(s, sep);
            assert forall|k: int, t: int|
                0 <= k < q.len() && 0 <= t < q[k].len() implies !sep(#[trigger] q[k][t]) by {
                if k == q.len() - 1 {
                    if t < p.last().len() {
                        assert(q[k][t] == p[k][t]);
                    }
                } else {
                    assert(q[k] == p[k]);
                }
            }
        }
    }
}

/// Splitting `s` extended by one character: a separator opens a new piece,
/// any other character extends the last piece.
pub proof fn lemma_split_pieces_push(s: Seq<char>, sep: spec_fn(char) -> bool, c: char)
    ensures
        sep(c) ==> split_pieces(s.push(c), sep) == split_pieces(s, sep).push(Seq::empty()),
        !sep(c) ==> split_pieces(s.push(c), sep) == split_pieces(s, sep).update(
            split_pieces(s, sep).len() - 1,
            split_pieces(s, sep).last().push(c),
        ),
{
    assert(s.push(c).drop_last() =~= s);
}

proof fn lemma_list_items_plain(s: Seq<char>)
    ensures
        list_items(s) == split_pieces(s, list_sep()).filter(is_nonempty()),
{
    lemma_split_pieces_shape(s, list_sep());
    let p = split_pieces(s, list_sep());
    assert forall|k: int| 0 <= k < p.len() implies #[trigger] trim(p[k]) == p[k] by {
        assert forall|t: int| 0 <= t < p[k].len() implies !is_whitespace(#[trigger] p[k][t]) by {
            assert(!list_sep()(p[k][t]));
        }
        lemma_trim_no_whitespace(p[k]);
    }
    assert(p.map_values(trimmed()) =~= p);
}

/// The items of the list `src[lo..hi]` (see `list_items`), as new strings.
pub fn list_items_exec(src: &str, v: &Vec<char>, lo: usize, hi: usize) -> (out: Vec<String>)
    requires
        v@ == src@,
        lo <= hi <= v.len(),
    ensures
        out@.map_values(|x: String| x@) == list_items(v@.subrange(lo as int, hi as int)),
{
    let mut out: Vec<String> = Vec::new();
    let mut start = lo;
    let mut i = lo;
    proof {
        assert(v@.subrange(lo as int, lo as int) =~= Seq::<char>::empty());
        assert(split_pieces(Seq::<char>::empty(), list_sep()).drop_last() =~= Seq::<Seq<char>>::empty());
        reveal_with_fuel(Seq::filter, 1);
        assert(out@.map_values(|x: String| x@) =~= Seq::<Seq<char>>::empty());
    }
    while i < hi
        invariant
            v@ == src@,
            lo <= start <= i <= hi <= v.len(),
            split_pieces(v@.subrange(lo as int, i as int), list_sep()).last() == v@.subrange(
                start as int,
                i as int,
            ),
            out@.map_values(|x: String| x@) == split_pieces(
                v@.subrange(lo as int, i as int),
                list_sep(),
            ).drop_last().filter(is_nonempty()),
        decreases hi - i,
    {
        let ghost s = v@.subrange(lo as int, i as int);
        let ghost s2 = v@.subrange(lo as int, i + 1);
        proof {
            assert(s2 =~= s.push(v@[i as int]));
            lemma_split_pieces_push(s, list_sep(), v@[i as int]);
            lemma_split_pieces_shape(s, list_sep());
        }
        let c = v[i];
        if c == ',' || char_is_whitespace(c) {
            let ghost before = out@.map_values(|x: String| x@);
            if start < i {
                let piece = src.substring_char(start, i);
                let t = String::from_str(piece);
                out.push(t);
                proof {
                    assert(out@.map_values(|x: String| x@) =~= before.push(
                        v@.subrange(start as int, i as int),
                    ));
                }
            }
            proof {
                let p = split_pieces(s, list_sep());
                let p2 = split_pieces(s2, list_sep());
                assert(p2 == p.push(Seq::<char>::empty()));
                assert(p2.drop_last() =~= p);
                assert(p =~= p.drop_last().push(p.last()));
                p.drop_last().lemma_filter_push(p.last(), is_nonempty());
                assert(v@.subrange(i + 1, i + 1) =~= Seq::<char>::empty());
            }
            start = i + 1;
        } else {
            proof {
                let p = split_pieces(s, list_sep());
                let p2 = split_pieces(s2, list_sep());
                assert(p2 == p.update(p.len() - 1, p.last().push(c)));
                assert(p2.drop_last() =~= p.drop_last());
                assert(v@.subrange(start as int, i + 1) =~= v@.subrange(start as int, i as int).push(
                    c,
                ));
            }
        }
        i = i + 1;
    }
    let ghost before = out@.map_values(|x: String| x@);
    if start < hi {
        let piece = src.substring_char(start, hi);
        let t = String::from_str(piece);
        out.push(t);
        proof {
            assert(out@.map_values(|x: String| x@) =~= before.push(
                v@.subrange(start as int, hi as int),
            ));
        }
    }
    proof {
        let s = v@.subrange(lo as int, hi as int);
        let p = split_pieces(s, list_sep());
        lemma_split_pieces_shape(s, list_sep());
        assert(p =~= p.drop_last().push(p.last()));
        p.drop_last().lemma_filter_push(p.last(), is_nonempty());
        lemma_list_items_plain(s);
    }
    out
}

// ---------------------------------------------------------------------------
// Joining
// ---------------------------------------------------------------------------

/// `parts` joined with `sep` between neighbours, as `[String]::join` gives it.
pub open spec fn join(parts: Seq<Seq<char>>, sep: Seq<char>) -> Seq<char>
    decreases parts.len(),
{
    if parts.len() == 0 {
        Seq::empty()
    } else if parts.len() == 1 {
        parts[0]
    } else {
        join(parts.drop_last(), sep) + sep + parts.last()
    }
}

/// Appends `parts` joined with `sep` to `out`.
pub fn append_joined(out: &mut String, parts: &Vec<String>, sep: &str)
    ensures
        final(out)@ == old(out)@ + join(parts@.map_values(|x: String| x@), sep@),
{
    let ghost start = out@;
    let ghost views = parts@.map_values(|x: String| x@);
    let mut i: usize = 0;
    while i < parts.len()
        invariant
            start == old(out)@,
            views == parts@.map_values(|x: String| x@),
            i <= parts.len(),
            out@ == start + join(views.take(i as int), sep@),
        decreases parts.len() - i,
    {
        proof {
            assert(views.take(i + 1).drop_last() =~= views.take(i as int));
            assert(views.take(i + 1).last() == parts@[i as int]@);
        }
        if i > 0 {
            out.append(sep);
        } else {
            assert(views.take(0) =~= Seq::<Seq<char>>::empty());
        }
        out.append(parts[i].as_str());
        proof {
            if i == 0 {
                assert(views.take(1)[0] == parts@[0]@);
                assert(out@ =~= start + join(views.take(1), sep@));
            } else {
                assert(out@ =~= start + join(views.take(i + 1), sep@));
            }
        }
        i = i + 1;
    }
    assert(views.take(parts.len() as int) =~= views);
}

// ---------------------------------------------------------------------------
// Decimal rendering
// ---------------------------------------------------------------------------

pub open spec fn digit_char(d: nat) -> char {
    if d == 0 {
        '0'
    } else if d == 1 {
        '1'
    } else if d == 2 {
        '2'
    } else if d == 3 {
        '3'
    } else if d == 4 {
        '4'
    } else if d == 5 {
        '5'
    } else if d == 6 {
        '6'
    } else if d == 7 {
        '7'
    } else if d == 8 {
        '8'
    } else {
        '9'
    }
}

/// The decimal digits of `n`, most significant first, no leading zeros.
pub open spec fn decimal(n: nat) -> Seq<char>
    decreases n,
{
    if n < 10 {
        seq![digit_char(n)]
    } else {
        decimal(n / 10).push(digit_char(n % 10))
    }
}

/// `x` in decimal with a leading `-` when negative, as `Display` for
/// integers renders it.
pub open spec fn signed_decimal(x: int) -> Seq<char> {
    if x < 0 {
        seq!['-'] + decimal((-x) as nat)
    } else {
        decimal(x as nat)
    }
}

fn digit_str(d: u64) -> (s: &'static str)
    requires
        d < 10,
    ensures
        s@ == seq![digit_char(d as nat)],
{
    proof {
        reveal_strlit("0");
        reveal_strlit("1");
        reveal_strlit("2");
        reveal_strlit("3");
        reveal_strlit("4");
        reveal_strlit("5");
        reveal_strlit("6");
        reveal_strlit("7");
        reveal_strlit("8");
        reveal_strlit("9");
    }
    let s = if d == 0 {
        "0"
    } else if d == 1 {
        "1"
    } else if d == 2 {
        "2"
    } else if d == 3 {
        "3"
    } else if d == 4 {
        "4"
    } else if d == 5 {
        "5"
    } else if d == 6 {
        "6"
    } else if d == 7 {
        "7"
    } else if d == 8 {
        "8"
    } else {
        "9"
    };
    assert(s@ =~= seq![digit_char(d as nat)]);
    s
}

/// Appends the decimal digits of `n` to `out`.
pub fn append_decimal(out: &mut String, n: u64)
    ensures
        final(out)@ == old(out)@ + decimal(n as nat),
    decreases n,
{
    if n >= 10 {
        append_decimal(out, n / 10);
    }
    let d = digit_str(n % 10);
    out.append(d);
    assert(out@ =~= old(out)@ + decimal(n as nat));
}

/// Appends `x` in decimal, with a `-` when negative.
pub fn append_signed_decimal(out: &mut String, x: i64)
    ensures
        final(out)@ == old(out)@ + signed_decimal(x as int),
{
    if x < 0 {
        proof {
            reveal_strlit("-");
        }
        out.append("-");
        let mag: u64 = if x == i64::MIN {
            9223372036854775808u64
        } else {
            (-x) as u64
        };
        append_decimal(out, mag);
        assert(out@ =~= old(out)@ + signed_decimal(x as int));
    } else {
        append_decimal(out, x as u64);
    }
}

/// `n` in decimal, as `n.to_string()` gives it.
pub fn decimal_string(n: u64) -> (s: String)
    ensures
        s@ == decimal(n as nat),
{
    let mut s = String::new();
    append_decimal(&mut s, n);
    assert(s@ =~= decimal(n as nat));
    s
}

// ---------------------------------------------------------------------------
// Ordering and comparison of character sequences
// ---------------------------------------------------------------------------

/// Lexicographic order by code point, the order of `str`'s `Ord`
/// (UTF-8 byte order and code point order agree).
pub open spec fn lex_lt(a: Seq<char>, b: Seq<char>) -> bool
    decreases a.len(),
{
    if a.len() == 0 {
        b.len() > 0
    } else if b.len() == 0 {
        false
    } else if a[0] != b[0] {
        a[0] < b[0]
    } else {
        lex_lt(a.drop_first(), b.drop_first())
    }
}

pub proof fn lemma_lex_lt_irreflexive(a: Seq<char>)
    ensures
        !lex_lt(a, a),
    decreases a.len(),
{
    if a.len() > 0 {
        lemma_lex_lt_irreflexive(a.drop_first());
    }
}

pub proof fn lemma_lex_lt_total(a: Seq<char>, b: Seq<char>)
    ensures
        lex_lt(a, b) || lex_lt(b, a) || a == b,
    decreases a.len(),
{
    if a.len() > 0 && b.len() > 0 && a[0] == b[0] {
        lemma_lex_lt_total(a.drop_first(), b.drop_first());
        if a.drop_first() == b.drop_first() {
            assert(a =~= seq![a[0]] + a.drop_first());
            assert(b =~= seq![b[0]] + b.drop_first());
        }
    } else if a.len() == 0 && b.len() == 0 {
        assert(a =~= b);
    } else if a.len() > 0 && b.len() > 0 {
    }
}

pub proof fn lemma_lex_lt_transitive(a: Seq<char>, b: Seq<char>, c: Seq<char>)
    requires
        lex_lt(a, b),
        lex_lt(b, c),
    ensures
        lex_lt(a, c),
    decreases a.len(),
{
    if a.len() > 0 && b.len() > 0 && c.len() > 0 && a[0] == b[0] && b[0] == c[0] {
        lemma_lex_lt_transitive(a.drop_first(), b.drop_first(), c.drop_first());
    }
}

proof fn lemma_lex_lt_skip(a: Seq<char>, b: Seq<char>, i: int)
    requires
        0 <= i <= a.len(),
        i <= b.len(),
        a.subrange(0, i) == b.subrange(0, i),
    ensures
        lex_lt(a, b) == lex_lt(a.subrange(i, a.len() as int), b.subrange(i, b.len() as int)),
    decreases i,
{
    if i > 0 {
        assert(a[0] == a.subrange(0, i)[0]);
        assert(b[0] == b.subrange(0, i)[0]);
        let a1 = a.drop_first();
        let b1 = b.drop_first();
        assert(a1.subrange(0, i - 1) =~= a.subrange(1, i));
        assert(b1.subrange(0, i - 1) =~= b.subrange(1, i));
        assert(a.subrange(1, i) =~= a.subrange(0, i).drop_first());
        assert(b.subrange(1, i) =~= b.subrange(0, i).drop_first());
        lemma_lex_lt_skip(a1, b1, i - 1);
        assert(a1.subrange(i - 1, a1.len() as int) =~= a.subrange(i, a.len() as int));
        assert(b1.subrange(i - 1, b1.len() as int) =~= b.subrange(i, b.len() as int));
    } else {
        assert(a.subrange(0, a.len() as int) =~= a);
        assert(b.subrange(0, b.len() as int) =~= b);
    }
}

/// `a < b` in the order of `lex_lt`.
pub fn chars_lt(a: &Vec<char>, b: &Vec<char>) -> (r: bool)
    ensures
        r == lex_lt(a@, b@),
{
    let mut i: usize = 0;
    while i < a.len() && i < b.len() && a[i] == b[i]
        invariant
            i <= a.len(),
            i <= b.len(),
            a@.subrange(0, i as int) == b@.subrange(0, i as int),
        decreases a.len() - i,
    {
        proof {
            assert(a@.subrange(0, i + 1) =~= a@.subrange(0, i as int).push(a@[i as int]));
            assert(b@.subrange(0, i + 1) =~= b@.subrange(0, i as int).push(b@[i as int]));
        }
        i = i + 1;
    }
    proof {
        lemma_lex_lt_skip(a@, b@, i as int);
        let ra = a@.subrange(i as int, a.len() as int);
        let rb = b@.subrange(i as int, b.len() as int);
        if i < a.len() && i < b.len() {
            assert(ra[0] == a@[i as int]);
            assert(rb[0] == b@[i as int]);
        }
    }
    if i < a.len() && i < b.len() {
        a[i] < b[i]
    } else {
        i == a.len() && i < b.len()
    }
}

/// `c` with ASCII upper-case letters mapped to lower case, as a code point.
pub open spec fn ascii_lower(c: char) -> u32 {
    let u = c as u32;
    if 65 <= u <= 90 {
        (u + 32) as u32
    } else {
        u
    }
}

/// `a` and `b` are equal up to ASCII case, as `str::eq_ignore_ascii_case`
/// tests.
pub open spec fn eq_ignore_ascii_case(a: Seq<char>, b: Seq<char>) -> bool {
    a.len() == b.len() && forall|i: int| 0 <= i < a.len() ==> ascii_lower(a[i]) == ascii_lower(b[i])
}

fn ascii_lower_exec(c: char) -> (u: u32)
    ensures
        u == ascii_lower(c),
{
    let u = c as u32;
    if 65 <= u && u <= 90 {
        u + 32
    } else {
        u
    }
}

pub fn chars_eq_ignore_ascii_case(a: &Vec<char>, b: &Vec<char>) -> (r: bool)
    ensures
        r == eq_ignore_ascii_case(a@, b@),
{
    if a.len() != b.len() {
        return false;
    }
    let mut i: usize = 0;
    while i < a.len()
        invariant
            a.len() == b.len(),
            i <= a.len(),
            forall|k: int| 0 <= k < i ==> ascii_lower(a@[k]) == ascii_lower(b@[k]),
        decreases a.len() - i,
    {
        if ascii_lower_exec(a[i]) != ascii_lower_exec(b[i]) {
            return false;
        }
        i = i + 1;
    }
    true
}

/// `a == b`, character by character.
pub fn str_eq(a: &str, b: &str) -> (r: bool)
    ensures
        r == (a@ == b@),
{
    let x = chars_of(a);
    let y = chars_of(b);
    if x.len() != y.len() {
        return false;
    }
    let mut i: usize = 0;
    while i < x.len()
        invariant
            x.len() == y.len(),
            x@ == a@,
            y@ == b@,
            i <= x.len(),
            forall|k: int| 0 <= k < i ==> x@[k] == y@[k],
        decreases x.len() - i,
    {
        if x[i] != y[i] {
            return false;
        }
        i = i + 1;
    }
    assert(x@ =~= y@);
    true
}

pub proof fn lemma_split_word(w: Seq<char>, sep: spec_fn(char) -> bool)
    requires
        forall|k: int| 0 <= k < w.len() ==> !sep(#[trigger] w[k]),
    ensures
        split_pieces(w, sep) == seq![w],
    decreases w.len(),
{
    if w.len() > 0 {
        let v = w.drop_last();
        assert forall|k: int| 0 <= k < v.len() implies !sep(#[trigger] v[k]) by {
            assert(v[k] == w[k]);
        }
        lemma_split_word(v, sep);
        assert(!sep(w[w.len() - 1]));
        assert(v.push(w.last()) =~= w);
        assert(w.drop_last() == v);
        assert(seq![v].update(0, v.push(w.last())) =~= seq![w]);
    } else {
        assert(w =~= Seq::<char>::empty());
    }
}

/// Reading a race list: an empty text names no race; a word free of commas
/// and whitespace names itself; and a comma or whitespace splits a list
/// into the races before it and the races after it.
pub proof fn law_list_items(a: Seq<char>, c: char, b: Seq<char>)
    ensures
        list_items(Seq::empty()).len() == 0,
        (c == ',' || is_whitespace(c)) ==> list_items(a.push(c) + b) == list_items(a) + list_items(
            b,
        ),
        (a.len() > 0 && forall|k: int| 0 <= k < a.len() ==> a[k] != ',' && !is_whitespace(
            #[trigger] a[k],
        )) ==> list_items(a) == seq![a],
{
    let sep = list_sep();
    lemma_split_word(Seq::<char>::empty(), sep);
    reveal_with_fuel(Seq::filter, 2);
    assert(seq![Seq::<char>::empty()].map_values(trimmed()) =~= seq![trim(Seq::<char>::empty())]);
    if c == ',' || is_whitespace(c) {
        let ac = a.push(c);
        lemma_split_after_sep(ac, b, sep);
        lemma_split_pieces_push(a, sep, c);
        assert(split_pieces(ac, sep).drop_last() =~= split_pieces(a, sep));
        let x = split_pieces(a, sep);
        let y = split_pieces(b, sep);
        assert((x + y).map_values(trimmed()) =~= x.map_values(trimmed()) + y.map_values(trimmed()));
        Seq::filter_distributes_over_add(x.map_values(trimmed()), y.map_values(trimmed()), is_nonempty());
    }
    if a.len() > 0 && forall|k: int| 0 <= k < a.len() ==> a[k] != ',' && !is_whitespace(#[trigger] a[k]) {
        assert forall|k: int| 0 <= k < a.len() implies !sep(#[trigger] a[k]) by {
            assert(a[k] != ',' && !is_whitespace(a[k]));
        }
        lemma_split_word(a, sep);
        assert forall|k: int| 0 <= k < a.len() implies !is_whitespace(#[trigger] a[k]) by {
            assert(a[k] != ',' && !is_whitespace(a[k]));
        }
        lemma_trim_no_whitespace(a);
        assert(seq![a].map_values(trimmed()) =~= seq![a]);
        assert(seq![a].drop_last() =~= Seq::<Seq<char>>::empty());
    }
}

/// The number a string of decimal digits stands for.
pub open spec fn digits_value(s: Seq<char>) -> int
    decreases s.len(),
{
    if s.len() == 0 {
        0
    } else {
        digits_value(s.drop_last()) * 10 + (s.last() as u32 - 48)
    }
}

proof fn lemma_digit_char(d: nat)
    requires
        d < 10,
    ensures
        digit_char(d) as u32 == 48 + d,
{
}

/// Decimal rendering reads back: the digits of `n` stand for `n`, are all
/// digits `0` to `9`, and start with `0` only for zero itself.
pub proof fn law_decimal_reads_back(n: nat)
    ensures
        digits_value(decimal(n)) == n,
        decimal(n).len() > 0,
        forall|k: int| 0 <= k < decimal(n).len() ==> 48 <= (#[trigger] decimal(n)[k]) as u32 <= 57,
        decimal(n)[0] == '0' ==> n == 0,
    decreases n,
{
    lemma_digit_char(n % 10);
    if n < 10 {
        lemma_digit_char(n);
        assert(decimal(n).drop_last() =~= Seq::<char>::empty());
        assert(digits_value(Seq::<char>::empty()) == 0);
        assert(decimal(n).last() == digit_char(n));
        assert(digits_value(decimal(n)) == digits_value(decimal(n).drop_last()) * 10 + (
        decimal(n).last() as u32 - 48));
    }
    if n >= 10 {
        law_decimal_reads_back(n / 10);
        let d = decimal(n / 10);
        assert(decimal(n).drop_last() =~= d);
        assert(decimal(n).last() == digit_char(n % 10));
        assert(digits_value(decimal(n)) == digits_value(d) * 10 + (n % 10));
        assert(n == (n / 10) * 10 + n % 10) by (nonlinear_arith);
        assert forall|k: int| 0 <= k < decimal(n).len() implies 48 <= (#[trigger] decimal(n)[k]) as u32 <= 57 by {
            if k < d.len() {
                assert(decimal(n)[k] == d[k]);
            }
        }
        assert(decimal(n)[0] == d[0]);
    }
}

/// Signed rendering: a negative number is `-` and the digits of its
/// magnitude; any other is its digits.
pub proof fn law_signed_decimal(x: int)
    ensures
        x < 0 ==> signed_decimal(x) == seq!['-'] + decimal((-x) as nat),
        x >= 0 ==> signed_decimal(x) == decimal(x as nat),
{
}

/// Names are ordered as in a dictionary by code point: a proper prefix
/// comes first, and otherwise the first differing character decides.
pub proof fn law_lex_order(p: Seq<char>, x: char, y: char, a: Seq<char>, b: Seq<char>)
    ensures
        b.len() > 0 ==> lex_lt(p, p + b),
        !lex_lt(p + b, p),
        x != y ==> lex_lt(p.push(x) + a, p.push(y) + b) == ((x as u32) < (y as u32)),
    decreases p.len(),
{
    if p.len() > 0 {
        let q = p.drop_first();
        law_lex_order(q, x, y, a, b);
        assert((p + b).drop_first() =~= q + b);
        assert((p + b)[0] == p[0]);
        assert((p.push(x) + a).drop_first() =~= q.push(x) + a);
        assert((p.push(y) + b).drop_first() =~= q.push(y) + b);
        assert((p.push(x) + a)[0] == p[0]);
        assert((p.push(y) + b)[0] == p[0]);
    } else {
        assert(p + b =~= b);
        assert(p.push(x) + a =~= seq![x] + a);
        assert(p.push(y) + b =~= seq![y] + b);
        assert((seq![x] + a)[0] == x);
        assert((seq![y] + b)[0] == y);
    }
}

/// Comparing up to ASCII case equates an ASCII capital with its small
/// letter and nothing else: other characters must match exactly.
pub proof fn law_ascii_case(c: char, d: char)
    ensures
        (ascii_lower(c) == ascii_lower(d)) == (c == d || (65 <= (c as u32) <= 90 && (d as u32)
            == (c as u32) + 32) || (65 <= (d as u32) <= 90 && (c as u32) == (d as u32) + 32)),
{
}

/// Trimming cuts whitespace off both ends and nothing else: the trimmed
/// text is a stretch of the text outside which every character is
/// whitespace, and which neither starts nor ends with whitespace.
pub proof fn law_trim_window(s: Seq<char>)
    ensures
        (exists|a: int, b: int|
            #![trigger s.subrange(a, b)]
            0 <= a <= b <= s.len() && trim(s) == s.subrange(a, b) && (forall|k: int|
                0 <= k < a ==> is_whitespace(#[trigger] s[k])) && (forall|k: int|
                b <= k < s.len() ==> is_whitespace(#[trigger] s[k])) && (a < b ==> !is_whitespace(
                s[a]) && !is_whitespace(s[b - 1]))),
{
    let a = lemma_trim_start_index(s);
    let u = s.subrange(a, s.len() as int);
    let b = lemma_trim_end_index(u);
    lemma_trim_start_shape(s);
    lemma_trim_end_shape(u);
    assert(trim(s) =~= s.subrange(a, a + b));
    assert forall|k: int| a + b <= k < s.len() implies is_whitespace(#[trigger] s[k]) by {
        assert(s[k] == u[k - a]);
    }
    if b > 0 {
        assert(s[a] == u[0]);
        assert(u.subrange(0, b)[0] == u[0]);
        assert(s[a + b - 1] == u[b - 1]);
        assert(u.subrange(0, b).last() == u[b - 1]);
    }
    assert(s.subrange(a, a + b) == trim(s));
}

/// Equality up to ASCII case compares the texts character by character.
pub proof fn law_eq_ignore_ascii_case(a: Seq<char>, b: Seq<char>)
    ensures
        eq_ignore_ascii_case(a, b) == (a.len() == b.len() && forall|i: int|
            0 <= i < a.len() ==> ascii_lower(#[trigger] a[i]) == ascii_lower(b[i])),
        eq_ignore_ascii_case(a, a),
{
}

/// A text holds every piece it is made of, and no text holds a longer one.
pub proof fn law_substring(a: Seq<char>, m: Seq<char>, b: Seq<char>)
    ensures
        has_substring(a + m + b, m),
        m.len() > a.len() ==> !has_substring(a, m),
{
    assert((a + m + b).subrange(a.len() as int, (a.len() + m.len()) as int) =~= m);
    assert(matches_at(a + m + b, m, a.len() as int));
}

} // verus!
