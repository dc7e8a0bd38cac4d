//! Character-level text rules: Unicode whitespace, trimming, whitespace
//! collapsing and the note-list snippet.

use vstd::prelude::*;

verus! {

/// `char::is_whitespace`: the Unicode `White_Space` property.
pub open spec fn is_ws(c: char) -> bool {
    ||| c == '\t'
    ||| c == '\n'
    ||| c == '\u{0B}'
    ||| c == '\u{0C}'
    ||| c == '\r'
    ||| c == ' '
    ||| c == '\u{85}'
    ||| c == '\u{A0}'
    ||| c == '\u{1680}'
    ||| ('\u{2000}' <= c && c <= '\u{200A}')
    ||| c == '\u{2028}'
    ||| c == '\u{2029}'
    ||| c == '\u{202F}'
    ||| c == '\u{205F}'
    ||| c == '\u{3000}'
}

/// Whether `c` is Unicode whitespace.
pub fn is_whitespace(c: char) -> (r: bool)
    ensures
        r == is_ws(c),
{
    c == '\t' || c == '\n' || c == '\u{0B}' || c == '\u{0C}' || c == '\r' || c == ' ' || c
        == '\u{85}' || c == '\u{A0}' || c == '\u{1680}' || ('\u{2000}' <= c && c <= '\u{200A}')
        || c == '\u{2028}' || c == '\u{2029}' || c == '\u{202F}' || c == '\u{205F}' || c
        == '\u{3000}'
}

/// `String::push`: std documents that it appends the given `char` to the
/// end of the string; that is all this claims.
pub assume_specification[ String::push ](s: &mut String, ch: char)
    ensures
        final(s)@ == old(s)@.push(ch),
;

/// The characters of `s`, in order.
pub fn chars_of(s: &str) -> (v: Vec<char>)
    ensures
        v@ == s@,
{
    let mut v: Vec<char> = Vec::new();
    for c in it: s.chars()
        invariant
            v@ == it.seq().take(it.index() as int),
            it.seq() == s@,
    {
        v.push(c);
    }
    v
}

/// The string whose characters are `v`, in order.
pub fn string_of(v: &Vec<char>) -> (s: String)
    ensures
        s@ == v@,
{
    let mut s = String::new();
    let mut i: usize = 0;
    while i < v.len()
        invariant
            i <= v.len(),
            s@ == v@.take(i as int),
        decreases v.len() - i,
    {
        s.push(v[i]);
        proof {
            assert(v@.take(i + 1) =~= v@.take(i as int).push(v@[i as int]));
        }
        i = i + 1;
    }
    proof {
        assert(v@.take(v.len() as int) =~= v@);
    }
    s
}

/// `s` without its trailing whitespace (`str::trim_end`).
pub open spec fn rtrim(s: Seq<char>) -> Seq<char>
    decreases s.len(),
{
    if s.len() > 0 && is_ws(s.last()) {
        rtrim(s.drop_last())
    } else {
        s
    }
}

/// `s` without its leading whitespace (`str::trim_start`).
pub open spec fn ltrim(s: Seq<char>) -> Seq<char>
    decreases s.len(),
{
    if s.len() > 0 && is_ws(s[0]) {
        ltrim(s.drop_first())
    } else {
        s
    }
}

/// `s` without leading or trailing whitespace (`str::trim`).
pub open spec fn trim(s: Seq<char>) -> Seq<char> {
    ltrim(rtrim(s))
}

/// Index up to which `v` is kept by `rtrim`.
pub fn rtrim_end(v: &Vec<char>, end: usize) -> (k: usize)
    requires
        end <= v.len(),
    ensures
        k <= end,
        rtrim(v@.take(end as int)) == v@.take(k as int),
{
    let mut k = end;
    while k > 0 && is_whitespace(v[k - 1])
        invariant
            k <= end <= v.len(),
            rtrim(v@.take(end as int)) == rtrim(v@.take(k as int)),
        decreases k,
    {
        proof {
            assert(v@.take(k as int).drop_last() =~= v@.take(k - 1));
        }
        k = k - 1;
    }
    k
}

/// Index from which `v[start..end]` is kept by `ltrim`.
pub fn ltrim_start(v: &Vec<char>, start: usize, end: usize) -> (k: usize)
    requires
        start <= end <= v.len(),
    ensures
        start <= k <= end,
        ltrim(v@.subrange(start as int, end as int)) == v@.subrange(k as int, end as int),
{
    let mut k = start;
    while k < end && is_whitespace(v[k])
        invariant
            start <= k <= end <= v.len(),
            ltrim(v@.subrange(start as int, end as int)) == ltrim(v@.subrange(k as int, end as int)),
        decreases end - k,
    {
        proof {
            assert(v@.subrange(k as int, end as int).drop_first() =~= v@.subrange(k + 1, end as int));
        }
        k = k + 1;
    }
    k
}

/// Bounds `[a, b)` of `trim(v)` inside `v`.
pub fn trim_bounds(v: &Vec<char>) -> (r: (usize, usize))
    ensures
        r.0 <= r.1 <= v.len(),
        trim(v@) == v@.subrange(r.0 as int, r.1 as int),
{
    let b = rtrim_end(v, v.len());
    let a = ltrim_start(v, 0, b);
    proof {
        assert(v@.take(v.len() as int) =~= v@);
        assert(v@.take(b as int) =~= v@.subrange(0, b as int));
    }
    (a, b)
}

/// Whether `s` holds nothing but whitespace (`s.trim().is_empty()`).
pub fn is_blank(s: &str) -> (r: bool)
    ensures
        r == (trim(s@).len() == 0),
{
    let v = chars_of(s);
    let (a, b) = trim_bounds(&v);
    a == b
}

/// How many characters of a note's most recent block are kept for the note
/// list's preview snippet.
pub const SNIPPET_CHARS: usize = 140;

/// `s` with leading and trailing whitespace dropped and every inner run of
/// whitespace replaced by one space (`split_whitespace` joined by `" "`).
pub open spec fn collapse_ws(s: Seq<char>) -> Seq<char>
    decreases s.len(),
{
    if s.len() == 0 {
        Seq::empty()
    } else if is_ws(s.last()) {
        collapse_ws(s.drop_last())
    } else {
        let p = s.drop_last();
        let c = collapse_ws(p);
        if c.len() > 0 && is_ws(p.last()) {
            c.push(' ').push(s.last())
        } else {
            c.push(s.last())
        }
    }
}

/// The note-list snippet of `s`: its collapsed text, cut to
/// `SNIPPET_CHARS` characters (then trimmed at the end) and marked with an
/// ellipsis when it was longer.
pub open spec fn snippet_of(s: Seq<char>) -> Seq<char> {
    let c = collapse_ws(s);
    if c.len() <= SNIPPET_CHARS {
        c
    } else {
        rtrim(c.take(SNIPPET_CHARS as int)).push('\u{2026}')
    }
}

/// Collapsed form of `v` (see `collapse_ws`).
pub fn collapse_whitespace(v: &Vec<char>) -> (out: Vec<char>)
    ensures
        out@ == collapse_ws(v@),
{
    let mut out: Vec<char> = Vec::new();
    let mut i: usize = 0;
    while i < v.len()
        invariant
            i <= v.len(),
            out@ == collapse_ws(v@.take(i as int)),
        decreases v.len() - i,
    {
        let c = v[i];
        proof {
            assert(v@.take(i + 1).drop_last() =~= v@.take(i as int));
        }
        if !is_whitespace(c) {
            if out.len() > 0 && is_whitespace(v[i - 1]) {
                out.push(' ');
            }
            out.push(c);
        }
        i = i + 1;
    }
    proof {
        assert(v@.take(v.len() as int) =~= v@);
    }
    out
}

/// The preview snippet of `text` shown in the note list.
pub fn truncate_snippet(text: &str) -> (r: String)
    ensures
        r@ == snippet_of(text@),
{
    let v = chars_of(text);
    let c = collapse_whitespace(&v);
    if c.len() <= SNIPPET_CHARS {
        return string_of(&c);
    }
    let k = rtrim_end(&c, SNIPPET_CHARS);
    let mut out: Vec<char> = Vec::new();
    let mut i: usize = 0;
    while i < k
        invariant
            i <= k <= c.len(),
            out@ == c@.take(i as int),
        decreases k - i,
    {
        out.push(c[i]);
        proof {
            assert(c@.take(i + 1) =~= c@.take(i as int).push(c@[i as int]));
        }
        i = i + 1;
    }
    out.push('\u{2026}');
    string_of(&out)
}

/// What is left of a block when the text between `before` and `after` is
/// cut out: `before` trimmed at its end, `after` trimmed at its start,
/// joined by one space when both are non-empty, and the whole trimmed.
pub open spec fn remainder_of(before: Seq<char>, after: Seq<char>) -> Seq<char> {
    let b = rtrim(before);
    let a = ltrim(after);
    if b.len() == 0 || a.len() == 0 {
        trim(b + a)
    } else {
        trim(b + seq![' '] + a)
    }
}

/// Copies `v[from..to]` to the end of `out`.
fn push_range(out: &mut Vec<char>, v: &Vec<char>, from: usize, to: usize)
    requires
        from <= to <= v.len(),
    ensures
        final(out)@ == old(out)@ + v@.subrange(from as int, to as int),
{
    let mut i = from;
    while i < to
        invariant
            from <= i <= to <= v.len(),
            out@ == old(out)@ + v@.subrange(from as int, i as int),
        decreases to - i,
    {
        out.push(v[i]);
        proof {
            assert(v@.subrange(from as int, i + 1) =~= v@.subrange(from as int, i as int).push(
                v@[i as int],
            ));
        }
        i = i + 1;
    }
}

/// The characters `v[from..to]`.
pub fn sub_chars(v: &Vec<char>, from: usize, to: usize) -> (r: Vec<char>)
    requires
        from <= to <= v.len(),
    ensures
        r@ == v@.subrange(from as int, to as int),
{
    let mut r: Vec<char> = Vec::new();
    push_range(&mut r, v, from, to);
    proof {
        assert(r@ =~= v@.subrange(from as int, to as int));
    }
    r
}

/// `remainder_of` on character vectors.
pub fn remainder_chars(before: &Vec<char>, after: &Vec<char>) -> (r: Vec<char>)
    ensures
        r@ == remainder_of(before@, after@),
{
    let b = rtrim_end(before, before.len());
    let a = ltrim_start(after, 0, after.len());
    proof {
        assert(before@.take(before.len() as int) =~= before@);
        assert(after@.subrange(0, after.len() as int) =~= after@);
    }
    let mut joined: Vec<char> = Vec::new();
    push_range(&mut joined, before, 0, b);
    if b != 0 && a != after.len() {
        joined.push(' ');
    }
    push_range(&mut joined, after, a, after.len());
    proof {
        assert(before@.take(b as int) =~= before@.subrange(0, b as int));
        if b != 0 && a != after.len() {
            assert(joined@ =~= before@.take(b as int) + seq![' '] + after@.subrange(
                a as int,
                after.len() as int,
            ));
        } else {
            assert(joined@ =~= before@.take(b as int) + after@.subrange(
                a as int,
                after.len() as int,
            ));
        }
    }
    let (x, y) = trim_bounds(&joined);
    let mut r: Vec<char> = Vec::new();
    push_range(&mut r, &joined, x, y);
    proof {
        assert(r@ =~= joined@.subrange(x as int, y as int));
    }
    r
}

/// What remains of a block's text after the selection between `before` and
/// `after` is cut out of it (see `remainder_of`).
pub fn rejoin_remainder(before: &str, after: &str) -> (r: String)
    ensures
        r@ == remainder_of(before@, after@),
{
    let b = chars_of(before);
    let a = chars_of(after);
    let r = remainder_chars(&b, &a);
    string_of(&r)
}

/// Trimming the end of `x + y` trims `y` when anything of it is left,
/// else trims `x`.
pub proof fn lemma_rtrim_append(x: Seq<char>, y: Seq<char>)
    ensures
        rtrim(y).len() > 0 ==> rtrim(x + y) == x + rtrim(y),
        rtrim(y).len() == 0 ==> rtrim(x + y) == rtrim(x),
    decreases y.len(),
{
    if y.len() == 0 {
        assert(x + y =~= x);
    } else {
        assert((x + y).last() == y.last());
        assert((x + y).drop_last() =~= x + y.drop_last());
        lemma_rtrim_append(x, y.drop_last());
    }
}

/// Trimming the start of `x + y` trims `x` when anything of it is left,
/// else trims `y`.
pub proof fn lemma_ltrim_append(x: Seq<char>, y: Seq<char>)
    ensures
        ltrim(x).len() > 0 ==> ltrim(x + y) == ltrim(x) + y,
        ltrim(x).len() == 0 ==> ltrim(x + y) == ltrim(y),
    decreases x.len(),
{
    if x.len() == 0 {
        assert(x + y =~= y);
    } else {
        assert((x + y)[0] == x[0]);
        assert((x + y).drop_first() =~= x.drop_first() + y);
        lemma_ltrim_append(x.drop_first(), y);
    }
}

/// `rtrim` leaves no trailing whitespace and trims nothing more a second time.
pub proof fn lemma_rtrim_idempotent(x: Seq<char>)
    ensures
        rtrim(rtrim(x)) == rtrim(x),
        rtrim(x).len() > 0 ==> !is_ws(rtrim(x).last()),
    decreases x.len(),
{
    if x.len() > 0 {
        lemma_rtrim_idempotent(x.drop_last());
    }
}

/// `ltrim` leaves no leading whitespace and trims nothing more a second time.
pub proof fn lemma_ltrim_idempotent(x: Seq<char>)
    ensures
        ltrim(ltrim(x)) == ltrim(x),
        ltrim(x).len() > 0 ==> !is_ws(ltrim(x)[0]),
    decreases x.len(),
{
    if x.len() > 0 {
        lemma_ltrim_idempotent(x.drop_first());
    }
}

/// Trimming the end of a text that starts with a non-whitespace character
/// keeps that character.
pub proof fn lemma_rtrim_keeps_start(x: Seq<char>)
    requires
        x.len() > 0,
        !is_ws(x[0]),
    ensures
        rtrim(x).len() > 0,
        rtrim(x)[0] == x[0],
    decreases x.len(),
{
    if x.len() > 1 && is_ws(x.last()) {
        assert(x.drop_last()[0] == x[0]);
        lemma_rtrim_keeps_start(x.drop_last());
    }
}

/// Trimming the start of a text that ends with a non-whitespace character
/// keeps that character.
pub proof fn lemma_ltrim_keeps_end(x: Seq<char>)
    requires
        x.len() > 0,
        !is_ws(x.last()),
    ensures
        ltrim(x).len() > 0,
        ltrim(x).last() == x.last(),
    decreases x.len(),
{
    if x.len() > 1 && is_ws(x[0]) {
        assert(x.drop_first().last() == x.last());
        lemma_ltrim_keeps_end(x.drop_first());
    }
}

/// Trimming the start and the end can be done in either order.
pub proof fn lemma_trim_commutes(x: Seq<char>)
    ensures
        ltrim(rtrim(x)) == rtrim(ltrim(x)),
    decreases x.len(),
{
    if x.len() > 0 {
        if is_ws(x[0]) {
            let x1 = x.drop_first();
            lemma_trim_commutes(x1);
            let h = seq![x[0]];
            assert(h + x1 =~= x);
            lemma_rtrim_append(h, x1);
            assert(h[0] == x[0]);
            assert(h.drop_first() =~= Seq::<char>::empty());
            assert(ltrim(Seq::<char>::empty()).len() == 0);
            assert(ltrim(h) == ltrim(h.drop_first()));
            assert(ltrim(h).len() == 0);
            if rtrim(x1).len() > 0 {
                lemma_ltrim_append(h, rtrim(x1));
            } else {
                assert(h.last() == x[0]);
                assert(h.drop_last() =~= Seq::<char>::empty());
                assert(rtrim(Seq::<char>::empty()).len() == 0);
                assert(rtrim(h) == rtrim(h.drop_last()));
                assert(rtrim(h).len() == 0);
            }
        } else {
            lemma_rtrim_keeps_start(x);
        }
    }
}

/// `trim` drops exactly leading and trailing whitespace: it is empty just
/// when `s` is all whitespace, leaves no whitespace at either end, and
/// trims nothing more a second time.
pub proof fn lemma_trim_shape(s: Seq<char>)
    ensures
        trim(s).len() == 0 <==> rtrim(s).len() == 0,
        trim(s).len() == 0 <==> ltrim(s).len() == 0,
        trim(s) == rtrim(ltrim(s)),
        trim(s).len() > 0 ==> !is_ws(trim(s)[0]) && !is_ws(trim(s).last()),
        trim(trim(s)) == trim(s),
{
    lemma_trim_commutes(s);
    lemma_rtrim_idempotent(s);
    lemma_ltrim_idempotent(s);
    lemma_rtrim_idempotent(ltrim(s));
    lemma_ltrim_idempotent(rtrim(s));
    if rtrim(s).len() > 0 {
        lemma_ltrim_keeps_end(rtrim(s));
    }
    if ltrim(s).len() > 0 {
        lemma_rtrim_keeps_start(ltrim(s));
    }
    lemma_trim_commutes(trim(s));
    lemma_rtrim_idempotent(trim(s));
    lemma_ltrim_idempotent(trim(s));
}

/// `rtrim(x)` is `x` up to some point, with only whitespace after it.
pub proof fn lemma_rtrim_is_prefix(x: Seq<char>) -> (k: int)
    ensures
        0 <= k <= x.len(),
        rtrim(x) == x.take(k),
        forall|j: int| k <= j < x.len() ==> is_ws(#[trigger] x[j]),
    decreases x.len(),
{
    if x.len() > 0 && is_ws(x.last()) {
        let k = lemma_rtrim_is_prefix(x.drop_last());
        assert(x.drop_last().take(k) =~= x.take(k));
        assert forall|j: int| k <= j < x.len() implies is_ws(#[trigger] x[j]) by {
            if j < x.len() - 1 {
                assert(x.drop_last()[j] == x[j]);
            }
        }
        k
    } else {
        assert(x.take(x.len() as int) =~= x);
        x.len() as int
    }
}

/// `ltrim(x)` is `x` from some point on, with only whitespace before it.
pub proof fn lemma_ltrim_is_suffix(x: Seq<char>) -> (k: int)
    ensures
        0 <= k <= x.len(),
        ltrim(x) == x.skip(k),
        forall|j: int| 0 <= j < k ==> is_ws(#[trigger] x[j]),
    decreases x.len(),
{
    if x.len() > 0 && is_ws(x[0]) {
        let k = lemma_ltrim_is_suffix(x.drop_first());
        assert(x.drop_first().skip(k) =~= x.skip(k + 1));
        assert forall|j: int| 0 <= j < k + 1 implies is_ws(#[trigger] x[j]) by {
            if j > 0 {
                assert(x.drop_first()[j - 1] == x[j]);
            }
        }
        k + 1
    } else {
        assert(x.skip(0) =~= x);
        0
    }
}

/// `trim(s)` is a stretch of `s` with only whitespace around it.
pub proof fn lemma_trim_is_inner_stretch(s: Seq<char>)
    ensures
        exists|i: int, j: int|
            0 <= i <= j <= s.len() && trim(s) == s.subrange(i, j) && (forall|m: int|
                0 <= m < i ==> is_ws(#[trigger] s[m])) && (forall|m: int| j <= m < s.len() ==> is_ws(#[trigger] s[m])),
{
    let k1 = lemma_rtrim_is_prefix(s);
    let t = s.take(k1);
    let k2 = lemma_ltrim_is_suffix(t);
    assert(t.skip(k2) =~= s.subrange(k2, k1));
    assert forall|m: int| 0 <= m < k2 implies is_ws(#[trigger] s[m]) by {
        assert(t[m] == s[m]);
    }
    assert(trim(s) == s.subrange(k2, k1));
}

} // verus!
