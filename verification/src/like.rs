//! The `LIKE` matching that note search relies on (`%` for any run of
//! characters, `_` for one character, `\` escaping the next character, and
//! ASCII letters compared without regard to case), and the escaping that
//! makes a search query match literally.

use vstd::prelude::*;

verus! {

/// Code of `c` with ASCII upper-case letters mapped to lower case.
pub open spec fn fold_code(c: char) -> u32 {
    let x = c as u32;
    if 65 <= x && x <= 90 {
        (x + 32) as u32
    } else {
        x
    }
}

/// `a` and `b` are equal up to ASCII case.
pub open spec fn fold_eq(a: char, b: char) -> bool {
    fold_code(a) == fold_code(b)
}

/// Whether text `t` matches pattern `p`.
pub open spec fn like(p: Seq<char>, t: Seq<char>) -> bool
    decreases p.len(), t.len(),
{
    if p.len() == 0 {
        t.len() == 0
    } else if p[0] == '%' {
        like(p.drop_first(), t) || (t.len() > 0 && like(p, t.drop_first()))
    } else if t.len() == 0 {
        false
    } else if p[0] == '_' {
        like(p.drop_first(), t.drop_first())
    } else if p[0] == '\\' {
        p.len() >= 2 && fold_eq(p[1], t[0]) && like(p.skip(2), t.drop_first())
    } else {
        fold_eq(p[0], t[0]) && like(p.drop_first(), t.drop_first())
    }
}

/// Whether `a` and `b` are equal up to ASCII case.
pub fn chars_fold_eq(a: char, b: char) -> (r: bool)
    ensures
        r == fold_eq(a, b),
{
    let x = a as u32;
    let y = b as u32;
    let fx = if 65 <= x && x <= 90 {
        x + 32
    } else {
        x
    };
    let fy = if 65 <= y && y <= 90 {
        y + 32
    } else {
        y
    };
    fx == fy
}

proof fn lemma_like_end(p: Seq<char>, t: Seq<char>, j: int)
    requires
        0 <= j <= t.len(),
    ensures
        like(p.skip(p.len() as int), t.skip(j)) == (j == t.len()),
{
    assert(p.skip(p.len() as int) =~= Seq::<char>::empty());
}

proof fn lemma_like_step(p: Seq<char>, t: Seq<char>, i: int, j: int)
    requires
        0 <= i < p.len(),
        0 <= j <= t.len(),
    ensures
        like(p.skip(i), t.skip(j)) == if p[i] == '%' {
            like(p.skip(i + 1), t.skip(j)) || (j < t.len() && like(p.skip(i), t.skip(j + 1)))
        } else if j == t.len() {
            false
        } else if p[i] == '_' {
            like(p.skip(i + 1), t.skip(j + 1))
        } else if p[i] == '\\' {
            i + 1 < p.len() && fold_eq(p[i + 1], t[j]) && like(p.skip(i + 2), t.skip(j + 1))
        } else {
            fold_eq(p[i], t[j]) && like(p.skip(i + 1), t.skip(j + 1))
        },
{
    let ps = p.skip(i);
    let ts = t.skip(j);
    assert(ps.drop_first() =~= p.skip(i + 1));
    assert(ps[0] == p[i]);
    if j < t.len() {
        assert(ts.drop_first() =~= t.skip(j + 1));
        assert(ts[0] == t[j]);
    }
    if i + 1 < p.len() {
        assert(ps.skip(2) =~= p.skip(i + 2));
        assert(ps[1] == p[i + 1]);
    }
}

/// Whether `t` matches the pattern `p`, computed over the suffixes of both.
pub fn like_match(p: &Vec<char>, t: &Vec<char>) -> (r: bool)
    ensures
        r == like(p@, t@),
{
    let n = t.len();
    let m = p.len();
    // row for the empty rest of the pattern
    let mut next1: Vec<bool> = Vec::new();
    for j in 0..n
        invariant
            n == t.len(),
            m == p.len(),
            next1.len() == j,
            forall|k: int| 0 <= k < j ==> next1@[k] == like(p@.skip(m as int), t@.skip(k)),
    {
        proof {
            lemma_like_end(p@, t@, j as int);
        }
        next1.push(false);
    }
    proof {
        lemma_like_end(p@, t@, n as int);
    }
    next1.push(true);
    let mut next2: Vec<bool> = next1.clone();
    let mut i = m;
    while i > 0
        invariant
            n == t.len(),
            m == p.len(),
            i <= m,
            next1.len() == n + 1,
            next2.len() == n + 1,
            forall|k: int| 0 <= k <= n ==> next1@[k] == like(p@.skip(i as int), t@.skip(k)),
            i + 1 <= m ==> forall|k: int| 0 <= k <= n ==> next2@[k] == like(p@.skip(i + 1), t@.skip(k)),
        decreases i,
    {
        let ii = i - 1;
        let pc = p[ii];
        let mut cur: Vec<bool> = Vec::new();
        for j in 0..n
            invariant
                cur.len() == j,
        {
            cur.push(false);
        }
        cur.push(false);
        // last column: empty rest of text
        proof {
            lemma_like_step(p@, t@, ii as int, n as int);
        }
        let last = if pc == '%' {
            next1[n]
        } else {
            false
        };
        cur.set(n, last);
        let mut j = n;
        while j > 0
            invariant
                n == t.len(),
                m == p.len(),
                ii + 1 == i,
                i <= m,
                pc == p@[ii as int],
                j <= n,
                next1.len() == n + 1,
                next2.len() == n + 1,
                cur.len() == n + 1,
                forall|k: int| 0 <= k <= n ==> next1@[k] == like(p@.skip(i as int), t@.skip(k)),
                i + 1 <= m ==> forall|k: int|
                    0 <= k <= n ==> next2@[k] == like(p@.skip(i + 1), t@.skip(k)),
                forall|k: int| j <= k <= n ==> cur@[k] == like(p@.skip(ii as int), t@.skip(k)),
            decreases j,
        {
            let jj = j - 1;
            proof {
                lemma_like_step(p@, t@, ii as int, jj as int);
            }
            let v = if pc == '%' {
                next1[jj] || cur[jj + 1]
            } else if pc == '_' {
                next1[jj + 1]
            } else if pc == '\\' {
                i < m && chars_fold_eq(p[i], t[jj]) && next2[jj + 1]
            } else {
                chars_fold_eq(pc, t[jj]) && next1[jj + 1]
            };
            cur.set(jj, v);
            j = jj;
        }
        next2 = next1;
        next1 = cur;
        i = ii;
    }
    proof {
        assert(p@.skip(0) =~= p@);
        assert(t@.skip(0) =~= t@);
    }
    next1[0]
}

/// How one query character is written in a pattern: the wildcards and the
/// escape character itself get an escape character in front.
pub open spec fn escape_char(c: char) -> Seq<char> {
    if c == '\\' || c == '%' || c == '_' {
        seq!['\\', c]
    } else {
        seq![c]
    }
}

/// `s` with every wildcard and escape character escaped.
pub open spec fn escaped(s: Seq<char>) -> Seq<char>
    decreases s.len(),
{
    if s.len() == 0 {
        Seq::empty()
    } else {
        escape_char(s[0]) + escaped(s.drop_first())
    }
}

proof fn lemma_escaped_push(s: Seq<char>, c: char)
    ensures
        escaped(s.push(c)) == escaped(s) + escape_char(c),
    decreases s.len(),
{
    if s.len() == 0 {
        let sc = s.push(c);
        assert(sc[0] == c);
        assert(sc.drop_first() =~= Seq::<char>::empty());
        assert(escaped(sc.drop_first()) =~= Seq::<char>::empty());
        assert(escaped(s) =~= Seq::<char>::empty());
        assert(escaped(sc) =~= escape_char(c));
    } else {
        assert(s.push(c).drop_first() =~= s.drop_first().push(c));
        lemma_escaped_push(s.drop_first(), c);
        assert(escaped(s.push(c)) =~= escaped(s) + escape_char(c));
    }
}

/// Escapes `LIKE` wildcards (`%`, `_`) and the escape character itself so a
/// search query is matched literally rather than as a pattern.
pub fn escape_like(s: &str) -> (r: String)
    ensures
        r@ == escaped(s@),
{
    let v = crate::text::chars_of(s);
    let mut out = String::new();
    let mut i: usize = 0;
    while i < v.len()
        invariant
            i <= v.len(),
            v@ == s@,
            out@ == escaped(v@.take(i as int)),
        decreases v.len() - i,
    {
        let c = v[i];
        proof {
            assert(v@.take(i + 1) =~= v@.take(i as int).push(c));
            lemma_escaped_push(v@.take(i as int), c);
        }
        if c == '\\' || c == '%' || c == '_' {
            out.push('\\');
        }
        out.push(c);
        proof {
            assert(out@ =~= escaped(v@.take(i as int)) + escape_char(c));
        }
        i = i + 1;
    }
    proof {
        assert(v@.take(v.len() as int) =~= v@);
    }
    out
}

/// An escaped pattern read back: an escape character stands for the
/// character after it.
pub open spec fn unescaped(s: Seq<char>) -> Seq<char>
    decreases s.len(),
{
    if s.len() == 0 {
        Seq::empty()
    } else if s[0] == '\\' && s.len() >= 2 {
        seq![s[1]] + unescaped(s.skip(2))
    } else {
        seq![s[0]] + unescaped(s.drop_first())
    }
}

/// Escaping loses nothing: reading an escaped query back gives the query,
/// so two different queries never escape to the same pattern.
pub proof fn lemma_unescape_escaped(s: Seq<char>)
    ensures
        unescaped(escaped(s)) == s,
    decreases s.len(),
{
    if s.len() > 0 {
        let rest = s.drop_first();
        lemma_unescape_escaped(rest);
        let e = escaped(s);
        assert(e == escape_char(s[0]) + escaped(rest));
        if s[0] == '\\' || s[0] == '%' || s[0] == '_' {
            assert(e[0] == '\\');
            assert(e[1] == s[0]);
            assert(e.skip(2) =~= escaped(rest));
        } else {
            assert(e[0] == s[0]);
            assert(e.drop_first() =~= escaped(rest));
        }
        assert(unescaped(e) =~= s);
    }
}

/// `a` equals `b` up to ASCII case, character by character.
pub open spec fn folds_to(a: Seq<char>, b: Seq<char>) -> bool {
    a.len() == b.len() && forall|i: int| 0 <= i < a.len() ==> fold_eq(#[trigger] a[i], b[i])
}

/// `t` holds `q` somewhere, up to ASCII case.
pub open spec fn contains_folded(t: Seq<char>, q: Seq<char>) -> bool {
    exists|k: int|
        0 <= k && k + q.len() <= t.len() && #[trigger] folds_to(t.subrange(k, k + q.len()), q)
}

/// The pattern that search uses for query `q`: `q` escaped, between two
/// `%` wildcards.
pub open spec fn containment_pattern(q: Seq<char>) -> Seq<char> {
    seq!['%'] + escaped(q) + seq!['%']
}

proof fn lemma_percent_matches_all(u: Seq<char>)
    ensures
        like(seq!['%'], u),
    decreases u.len(),
{
    let p = seq!['%'];
    assert(p[0] == '%');
    assert(p.drop_first() =~= Seq::<char>::empty());
    assert(like(p.drop_first(), Seq::<char>::empty()));
    if u.len() > 0 {
        lemma_percent_matches_all(u.drop_first());
        assert(like(p, u.drop_first()));
    } else {
        assert(u =~= Seq::<char>::empty());
    }
}

proof fn lemma_escaped_prefix(q: Seq<char>, u: Seq<char>)
    ensures
        like(escaped(q) + seq!['%'], u) <==> (u.len() >= q.len() && folds_to(
            u.take(q.len() as int),
            q,
        )),
    decreases q.len(),
{
    if q.len() == 0 {
        assert(escaped(q) + seq!['%'] =~= seq!['%']);
        lemma_percent_matches_all(u);
        assert(folds_to(u.take(0), q));
    } else {
        let c = q[0];
        let rest = escaped(q.drop_first()) + seq!['%'];
        let p = escaped(q) + seq!['%'];
        assert(p =~= escape_char(c) + rest);
        if u.len() > 0 {
            lemma_escaped_prefix(q.drop_first(), u.drop_first());
        }
        if c == '\\' || c == '%' || c == '_' {
            assert(p[0] == '\\');
            assert(p[1] == c);
            assert(p.skip(2) =~= rest);
        } else {
            assert(p[0] == c);
            assert(p.drop_first() =~= rest);
        }
        if u.len() >= q.len() && folds_to(u.take(q.len() as int), q) {
            assert(fold_eq(u.take(q.len() as int)[0], q[0]));
            assert(u.len() > 0);
            let ut = u.drop_first().take(q.len() - 1);
            assert forall|i: int| 0 <= i < ut.len() implies fold_eq(
                #[trigger] ut[i],
                q.drop_first()[i],
            ) by {
                assert(ut[i] == u.take(q.len() as int)[i + 1]);
            }
            assert(folds_to(ut, q.drop_first()));
        }
        if like(p, u) {
            assert(u.len() > 0);
            let ut = u.take(q.len() as int);
            assert forall|i: int| 0 <= i < ut.len() implies fold_eq(#[trigger] ut[i], q[i]) by {
                if i > 0 {
                    assert(ut[i] == u.drop_first().take(q.len() - 1)[i - 1]);
                }
            }
        }
    }
}

proof fn lemma_leading_percent(y: Seq<char>, t: Seq<char>)
    ensures
        like(seq!['%'] + y, t) <==> exists|k: int| 0 <= k <= t.len() && #[trigger] like(y, t.skip(k)),
    decreases t.len(),
{
    let p = seq!['%'] + y;
    assert(p[0] == '%');
    assert(p.drop_first() =~= y);
    assert(t.skip(0) =~= t);
    if like(y, t) {
        assert(like(y, t.skip(0)));
    }
    if t.len() > 0 {
        lemma_leading_percent(y, t.drop_first());
        if exists|k: int| 0 <= k <= t.len() && #[trigger] like(y, t.skip(k)) {
            let k = choose|k: int| 0 <= k <= t.len() && #[trigger] like(y, t.skip(k));
            if k > 0 {
                assert(t.drop_first().skip(k - 1) =~= t.skip(k));
            }
        }
        if like(p, t.drop_first()) {
            let k = choose|k: int|
                0 <= k <= t.drop_first().len() && #[trigger] like(y, t.drop_first().skip(k));
            assert(t.drop_first().skip(k) =~= t.skip(k + 1));
        }
    } else {
        if exists|k: int| 0 <= k <= t.len() && #[trigger] like(y, t.skip(k)) {
            let k = choose|k: int| 0 <= k <= t.len() && #[trigger] like(y, t.skip(k));
            assert(k == 0);
        }
    }
}

/// A query escaped with `escape_like` and put between two `%` wildcards
/// matches exactly the texts that contain the query, ASCII letters compared
/// without regard to case: no character of the query acts as a wildcard.
pub proof fn lemma_escaped_query_matches_literally(q: Seq<char>, t: Seq<char>)
    ensures
        like(containment_pattern(q), t) <==> contains_folded(t, q),
{
    let y = escaped(q) + seq!['%'];
    assert(containment_pattern(q) =~= seq!['%'] + y);
    lemma_leading_percent(y, t);
    if like(containment_pattern(q), t) {
        let k = choose|k: int| 0 <= k <= t.len() && #[trigger] like(y, t.skip(k));
        lemma_escaped_prefix(q, t.skip(k));
        assert(t.skip(k).take(q.len() as int) =~= t.subrange(k, k + q.len()));
    }
    if contains_folded(t, q) {
        let k = choose|k: int|
            0 <= k && k + q.len() <= t.len() && #[trigger] folds_to(t.subrange(k, k + q.len()), q);
        lemma_escaped_prefix(q, t.skip(k));
        assert(t.skip(k).take(q.len() as int) =~= t.subrange(k, k + q.len()));
        assert(like(y, t.skip(k)));
    }
}

} // verus!
