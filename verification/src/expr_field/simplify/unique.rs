//! Sorted sequences without equals are determined by their entries.
use vstd::prelude::*;
use crate::expr_field::simplify::{is_sorted, kept, lemma_place_bounds, place, sorted};

verus! {

/// `s` and `t` hold the same entries, whatever their order and number.
pub open spec fn same_members<T>(s: Seq<T>, t: Seq<T>) -> bool {
    forall|x: T| #[trigger] s.contains(x) <==> t.contains(x)
}

/// No entry occurs twice.
pub open spec fn no_repeats<T>(s: Seq<T>) -> bool {
    forall|i: int, j: int| 0 <= i < j < s.len() ==> #[trigger] s[i] != #[trigger] s[j]
}

/// Of two different entries that `ok` holds of, one is before the other.
pub open spec fn decides<T>(before: spec_fn(T, T) -> bool, ok: spec_fn(T) -> bool) -> bool {
    forall|a: T, b: T| ok(a) && ok(b) && a != b ==> #[trigger] before(a, b) || #[trigger] before(b, a)
}

/// The entries of `s` with `x` put in at `p` are those of `s` and `x`.
pub proof fn lemma_insert_members<T>(s: Seq<T>, p: int, x: T)
    requires
        0 <= p <= s.len(),
    ensures
        forall|y: T| #[trigger] s.insert(p, x).contains(y) <==> (s.contains(y) || y == x),
{
    let r = s.insert(p, x);
    assert forall|y: T| #[trigger] r.contains(y) <==> (s.contains(y) || y == x) by {
        if r.contains(y) {
            let i = choose|i: int| 0 <= i < r.len() && r[i] == y;
            if i < p {
                assert(s[i] == y);
            } else if i > p {
                assert(s[i - 1] == y);
            }
        }
        if s.contains(y) {
            let i = choose|i: int| 0 <= i < s.len() && s[i] == y;
            if i < p {
                assert(r[i] == y);
            } else {
                assert(r[i + 1] == y);
            }
        }
        if y == x {
            assert(r[p] == y);
        }
    }
}

/// Sorting keeps the entries.
pub proof fn lemma_sorted_members<T>(v: Seq<T>, before: spec_fn(T, T) -> bool)
    ensures
        same_members(sorted(v, before), v),
        sorted(v, before).len() == v.len(),
    decreases v.len(),
{
    if v.len() > 0 {
        let rest = v.drop_last();
        let x = v.last();
        lemma_sorted_members(rest, before);
        let s = sorted(rest, before);
        lemma_place_bounds(s, x, before, 0);
        lemma_insert_members(s, place(s, x, before, 0), x);
        assert forall|y: T| #[trigger] sorted(v, before).contains(y) <==> v.contains(y) by {
            if v.contains(y) {
                let i = choose|i: int| 0 <= i < v.len() && v[i] == y;
                if i < rest.len() {
                    assert(rest[i] == y);
                    assert(rest.contains(y));
                }
            }
            if rest.contains(y) {
                let i = choose|i: int| 0 <= i < rest.len() && rest[i] == y;
                assert(v[i] == y);
            }
            assert(v[v.len() - 1] == x);
        }
    }
}

/// Sorting keeps a sequence free of repeats.
pub proof fn lemma_sorted_no_repeats<T>(v: Seq<T>, before: spec_fn(T, T) -> bool)
    requires
        no_repeats(v),
    ensures
        no_repeats(sorted(v, before)),
    decreases v.len(),
{
    if v.len() > 0 {
        let rest = v.drop_last();
        let x = v.last();
        assert forall|i: int, j: int| 0 <= i < j < rest.len() implies #[trigger] rest[i]
            != #[trigger] rest[j] by {
            assert(v[i] != v[j]);
        }
        lemma_sorted_no_repeats(rest, before);
        lemma_sorted_members(rest, before);
        let s = sorted(rest, before);
        let p = place(s, x, before, 0);
        lemma_place_bounds(s, x, before, 0);
        let r = s.insert(p, x);
        assert forall|k: int| 0 <= k < s.len() implies #[trigger] s[k] != x by {
            assert(s.contains(s[k]));
            assert(rest.contains(s[k]));
            let i = choose|i: int| 0 <= i < rest.len() && rest[i] == s[k];
            assert(v[i] != v[v.len() - 1]);
        }
        assert forall|i: int, j: int| 0 <= i < j < r.len() implies #[trigger] r[i]
            != #[trigger] r[j] by {
            let a = if i < p {
                i
            } else {
                i - 1
            };
            let b = if j < p {
                j
            } else {
                j - 1
            };
            if i == p {
                assert(r[j] == s[b]);
                assert(s[b] != x);
            } else if j == p {
                assert(r[i] == s[a]);
                assert(s[a] != x);
            } else {
                assert(r[i] == s[a] && r[j] == s[b]);
                assert(s[a] != s[b]);
            }
        }
    }
}

/// Keeping keeps exactly the entries that pass, and no repeats come in.
pub proof fn lemma_kept_exactly<T>(v: Seq<T>, keep: spec_fn(T) -> bool)
    ensures
        forall|x: T| #[trigger] kept(v, keep).contains(x) <==> (v.contains(x) && keep(x)),
        no_repeats(v) ==> no_repeats(kept(v, keep)),
    decreases v.len(),
{
    if v.len() > 0 {
        let rest = v.drop_last();
        let last = v.last();
        lemma_kept_exactly(rest, keep);
        let k = kept(rest, keep);
        assert forall|x: T| #[trigger] kept(v, keep).contains(x) <==> (v.contains(x) && keep(
            x,
        )) by {
            if v.contains(x) {
                let i = choose|i: int| 0 <= i < v.len() && v[i] == x;
                if i < rest.len() {
                    assert(rest[i] == x);
                    assert(rest.contains(x));
                }
            }
            if rest.contains(x) {
                let i = choose|i: int| 0 <= i < rest.len() && rest[i] == x;
                assert(v[i] == x);
            }
            assert(v[v.len() - 1] == last);
            if keep(last) {
                let r = k.push(last);
                if r.contains(x) {
                    let i = choose|i: int| 0 <= i < r.len() && r[i] == x;
                    if i < k.len() {
                        assert(k[i] == x);
                        assert(k.contains(x));
                    }
                }
                if k.contains(x) {
                    let i = choose|i: int| 0 <= i < k.len() && k[i] == x;
                    assert(r[i] == x);
                }
                assert(r[k.len() as int] == last);
            }
        }
        if no_repeats(v) {
            assert forall|i: int, j: int| 0 <= i < j < rest.len() implies #[trigger] rest[i]
                != #[trigger] rest[j] by {
                assert(v[i] != v[j]);
            }
            if keep(last) {
                let r = k.push(last);
                assert forall|i: int, j: int| 0 <= i < j < r.len() implies #[trigger] r[i]
                    != #[trigger] r[j] by {
                    if j == k.len() {
                        assert(k.contains(k[i]));
                        assert(rest.contains(k[i]));
                        let m = choose|m: int| 0 <= m < rest.len() && rest[m] == k[i];
                        assert(v[m] != v[v.len() - 1]);
                    } else {
                        assert(k[i] != k[j]);
                    }
                }
            }
        }
    }
}

/// Two sorted sequences without repeats that hold the same entries are the
/// same sequence, where the order decides between any two different entries
/// and never holds both ways.
pub proof fn lemma_sorted_unique<T>(
    s: Seq<T>,
    t: Seq<T>,
    before: spec_fn(T, T) -> bool,
    ok: spec_fn(T) -> bool,
)
    requires
        is_sorted(s, before),
        is_sorted(t, before),
        no_repeats(s),
        no_repeats(t),
        same_members(s, t),
        decides(before, ok),
        forall|i: int| 0 <= i < s.len() ==> ok(#[trigger] s[i]),
        forall|i: int| 0 <= i < t.len() ==> ok(#[trigger] t[i]),
    ensures
        s == t,
    decreases s.len() + t.len(),
{
    if s.len() == 0 {
        if t.len() > 0 {
            assert(t.contains(t[0]));
            assert(s.contains(t[0]));
        }
        assert(s =~= t);
    } else if t.len() == 0 {
        assert(s.contains(s[0]));
        assert(t.contains(s[0]));
    } else {
        // the last entries are the same: each is before no other entry
        let a = s.last();
        let b = t.last();
        assert(s.contains(a)) by {
            assert(s[s.len() - 1] == a);
        }
        assert(t.contains(b)) by {
            assert(t[t.len() - 1] == b);
        }
        assert(t.contains(a));
        assert(s.contains(b));
        let i = choose|i: int| 0 <= i < t.len() && t[i] == a;
        let j = choose|j: int| 0 <= j < s.len() && s[j] == b;
        assert(ok(s[s.len() - 1]) && ok(t[t.len() - 1]));
        if a != b {
            assert(i < t.len() - 1);
            assert(j < s.len() - 1);
            assert(!before(t[t.len() - 1], t[i]));
            assert(!before(s[s.len() - 1], s[j]));
            assert(before(a, b) || before(b, a));
        }
        let s0 = s.drop_last();
        let t0 = t.drop_last();
        assert forall|x: T| #[trigger] s0.contains(x) <==> t0.contains(x) by {
            if s0.contains(x) {
                let k = choose|k: int| 0 <= k < s0.len() && s0[k] == x;
                assert(s[k] == x && s[k] != s[s.len() - 1]);
                assert(s.contains(x));
                assert(t.contains(x));
                let m = choose|m: int| 0 <= m < t.len() && t[m] == x;
                assert(m < t.len() - 1);
                assert(t0[m] == x);
            }
            if t0.contains(x) {
                let k = choose|k: int| 0 <= k < t0.len() && t0[k] == x;
                assert(t[k] == x && t[k] != t[t.len() - 1]);
                assert(t.contains(x));
                assert(s.contains(x));
                let m = choose|m: int| 0 <= m < s.len() && s[m] == x;
                assert(m < s.len() - 1);
                assert(s0[m] == x);
            }
        }
        assert forall|p: int, q: int| 0 <= p < q < s0.len() implies !before(
            #[trigger] s0[q],
            #[trigger] s0[p],
        ) by {
            assert(!before(s[q], s[p]));
        }
        assert forall|p: int, q: int| 0 <= p < q < t0.len() implies !before(
            #[trigger] t0[q],
            #[trigger] t0[p],
        ) by {
            assert(!before(t[q], t[p]));
        }
        assert forall|p: int, q: int| 0 <= p < q < s0.len() implies #[trigger] s0[p]
            != #[trigger] s0[q] by {
            assert(s[p] != s[q]);
        }
        assert forall|p: int, q: int| 0 <= p < q < t0.len() implies #[trigger] t0[p]
            != #[trigger] t0[q] by {
            assert(t[p] != t[q]);
        }
        assert forall|p: int| 0 <= p < s0.len() implies ok(#[trigger] s0[p]) by {
            assert(ok(s[p]));
        }
        assert forall|p: int| 0 <= p < t0.len() implies ok(#[trigger] t0[p]) by {
            assert(ok(t[p]));
        }
        lemma_sorted_unique(s0, t0, before, ok);
        assert(s =~= s0.push(a));
        assert(t =~= t0.push(b));
    }
}

} // verus!
