//! Ordering rows by a lexicographic key of three integers.

use vstd::prelude::*;

verus! {

/// A sort key: compared field by field.
pub type Key = (i128, i128, i128);

/// `a` comes strictly before `b`.
pub open spec fn key_lt(a: Key, b: Key) -> bool {
    a.0 < b.0 || (a.0 == b.0 && (a.1 < b.1 || (a.1 == b.1 && a.2 < b.2)))
}

fn key_less(a: Key, b: Key) -> (r: bool)
    ensures
        r == key_lt(a, b),
{
    a.0 < b.0 || (a.0 == b.0 && (a.1 < b.1 || (a.1 == b.1 && a.2 < b.2)))
}

/// The keys are pairwise distinct.
pub open spec fn distinct_keys(keys: Seq<Key>) -> bool {
    forall|i: int, j: int| 0 <= i < keys.len() && 0 <= j < keys.len() && i != j ==> keys[i] != keys[j]
}

/// `k` occurs in `s`.
pub open spec fn occurs(s: Seq<usize>, k: int) -> bool {
    exists|i: int| 0 <= i < s.len() && #[trigger] s[i] == k
}

/// `perm` lists every index of `keys` once, in increasing order of key.
pub open spec fn sorts(keys: Seq<Key>, perm: Seq<usize>) -> bool {
    &&& perm.len() == keys.len()
    &&& forall|i: int| 0 <= i < perm.len() ==> #[trigger] perm[i] < keys.len()
    &&& forall|k: int| 0 <= k < keys.len() ==> #[trigger] occurs(perm, k)
    &&& forall|i: int, j: int|
        0 <= i < j < perm.len() ==> key_lt(keys[#[trigger] perm[i] as int], keys[#[trigger] perm[j] as int])
}

/// The indices of `keys` in increasing order of key.
pub fn sorted_order(keys: &Vec<Key>) -> (perm: Vec<usize>)
    requires
        distinct_keys(keys@),
    ensures
        sorts(keys@, perm@),
{
    let n = keys.len();
    let mut rest: Vec<usize> = Vec::new();
    let mut out: Vec<usize> = Vec::new();
    for k in 0..n
        invariant
            n == keys.len(),
            rest@.len() == k,
            out@.len() == 0,
            forall|i: int| 0 <= i < k ==> rest@[i] == i,
    {
        rest.push(k);
    }
    proof {
        assert forall|k: int| 0 <= k < n implies #[trigger] occurs(out@, k) || occurs(rest@, k) by {
            assert(rest@[k] == k);
        }
    }
    while rest.len() > 0
        invariant
            n == keys.len(),
            distinct_keys(keys@),
            out.len() + rest.len() == n,
            forall|i: int| 0 <= i < rest.len() ==> #[trigger] rest@[i] < n,
            forall|i: int| 0 <= i < out.len() ==> #[trigger] out@[i] < n,
            forall|i: int, j: int| 0 <= i < j < rest.len() ==> rest@[i] != rest@[j],
            forall|k: int| 0 <= k < n ==> #[trigger] occurs(out@, k) || occurs(rest@, k),
            forall|i: int, j: int|
                0 <= i < j < out.len() ==> key_lt(keys@[#[trigger] out@[i] as int], keys@[#[trigger] out@[j] as int]),
            forall|i: int, j: int|
                0 <= i < out.len() && 0 <= j < rest.len() ==> key_lt(
                    keys@[#[trigger] out@[i] as int],
                    keys@[#[trigger] rest@[j] as int],
                ),
        decreases rest.len(),
    {
        let mut best: usize = 0;
        let mut j: usize = 1;
        while j < rest.len()
            invariant
                n == keys.len(),
                1 <= j <= rest.len(),
                best < rest.len(),
                forall|i: int| 0 <= i < rest.len() ==> #[trigger] rest@[i] < n,
                forall|i: int| 0 <= i < j ==> !key_lt(keys@[#[trigger] rest@[i] as int], keys@[rest@[best as int] as int]),
            decreases rest.len() - j,
        {
            if key_less(keys[rest[j]], keys[rest[best]]) {
                best = j;
            }
            j = j + 1;
        }
        let ghost old_rest = rest@;
        let ghost old_out = out@;
        let m = rest.remove(best);
        proof {
            assert forall|i: int| 0 <= i < rest.len() implies key_lt(keys@[m as int], keys@[#[trigger] rest@[i] as int]) by {
                let oi = if i < best { i } else { i + 1 };
                assert(rest@[i] == old_rest[oi]);
                assert(old_rest[oi] != old_rest[best as int]);
                assert(keys@[old_rest[oi] as int] != keys@[m as int]);
                assert(!key_lt(keys@[old_rest[oi] as int], keys@[m as int]));
            }
        }
        out.push(m);
        proof {
            assert forall|k: int| 0 <= k < n implies #[trigger] occurs(out@, k) || occurs(rest@, k) by {
                assert(occurs(old_out, k) || occurs(old_rest, k));
                if occurs(old_out, k) {
                    let i = choose|i: int| 0 <= i < old_out.len() && #[trigger] old_out[i] == k;
                    assert(out@[i] == k);
                } else {
                    let i = choose|i: int| 0 <= i < old_rest.len() && #[trigger] old_rest[i] == k;
                    if i < best {
                        assert(rest@[i] == k);
                    } else if i == best {
                        assert(out@[old_out.len() as int] == k);
                    } else {
                        assert(rest@[i - 1] == k);
                    }
                }
            }
            assert forall|i: int, j: int| 0 <= i < j < out.len() implies key_lt(
                keys@[#[trigger] out@[i] as int],
                keys@[#[trigger] out@[j] as int],
            ) by {
                if j == out.len() - 1 {
                    assert(old_rest[best as int] == m);
                    assert(key_lt(keys@[old_out[i] as int], keys@[old_rest[best as int] as int]));
                } else {
                    assert(out@[i] == old_out[i]);
                    assert(out@[j] == old_out[j]);
                }
            }
            assert forall|i: int, j: int| 0 <= i < out.len() && 0 <= j < rest.len() implies key_lt(
                keys@[#[trigger] out@[i] as int],
                keys@[#[trigger] rest@[j] as int],
            ) by {
                let oj = if j < best { j } else { j + 1 };
                assert(rest@[j] == old_rest[oj]);
                if i < old_out.len() {
                    assert(out@[i] == old_out[i]);
                }
            }
            assert forall|i: int, j: int| 0 <= i < j < rest.len() implies rest@[i] != rest@[j] by {
                let oi = if i < best { i } else { i + 1 };
                let oj = if j < best { j } else { j + 1 };
                assert(rest@[i] == old_rest[oi]);
                assert(rest@[j] == old_rest[oj]);
            }
        }
    }
    out
}

} // verus!
