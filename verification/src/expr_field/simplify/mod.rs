//! Reduction of raw sum and product vectors to canonical form.
//!
//! The steps are stated once for sequences of any entries and used twice:
//! on the handles that the arena works with and on the terms that they stand
//! for.
use vstd::prelude::*;

pub mod prod;
pub mod root;
pub mod sum;
pub mod sum_laws;
pub mod unique;

verus! {

/// Entries of a vector of which two may be alike and are then merged.
pub trait Like: Sized {
    /// `self` and `other` count as the same term or base.
    spec fn like(self, other: Self) -> bool;

    /// `self` with the coefficient or exponent of `other` added.
    spec fn merged(self, other: Self) -> Self;

    /// What [`Like::merge`] asks of its operands.
    spec fn mergeable(self) -> bool;

    fn is_like(&self, other: &Self) -> (r: bool)
        ensures
            r == self.like(*other),
    ;

    fn merge(&self, other: &Self) -> (r: Self)
        requires
            self.mergeable(),
            other.mergeable(),
        ensures
            r == self.merged(*other),
            r.mergeable(),
    ;
}

/// `acc` after `x` has been merged into the first entry from `from` on that
/// is like it, or appended when there is none.
pub open spec fn absorb<T>(
    acc: Seq<T>,
    x: T,
    like: spec_fn(T, T) -> bool,
    merge: spec_fn(T, T) -> T,
    from: int,
) -> Seq<T>
    decreases acc.len() - from,
{
    if from < 0 || from >= acc.len() {
        acc.push(x)
    } else if like(acc[from], x) {
        acc.update(from, merge(acc[from], x))
    } else {
        absorb(acc, x, like, merge, from + 1)
    }
}

/// The entries of `v` with like entries merged, each at the place of its
/// first occurrence.
pub open spec fn collected<T>(v: Seq<T>, like: spec_fn(T, T) -> bool, merge: spec_fn(T, T) -> T) -> Seq<T>
    decreases v.len(),
{
    if v.len() == 0 {
        Seq::empty()
    } else {
        absorb(collected(v.drop_last(), like, merge), v.last(), like, merge, 0)
    }
}

/// The entries of `v` that `keep` holds of, in their order.
pub open spec fn kept<T>(v: Seq<T>, keep: spec_fn(T) -> bool) -> Seq<T>
    decreases v.len(),
{
    if v.len() == 0 {
        Seq::empty()
    } else if keep(v.last()) {
        kept(v.drop_last(), keep).push(v.last())
    } else {
        kept(v.drop_last(), keep)
    }
}

/// The first place from `from` on whose entry `x` goes before; the length
/// when there is none.
pub open spec fn place<T>(s: Seq<T>, x: T, before: spec_fn(T, T) -> bool, from: int) -> int
    decreases s.len() - from,
{
    if from < 0 || from >= s.len() {
        s.len() as int
    } else if before(x, s[from]) {
        from
    } else {
        place(s, x, before, from + 1)
    }
}

/// `v` sorted by insertion: each entry goes in front of the first entry
/// that it is before.
pub open spec fn sorted<T>(v: Seq<T>, before: spec_fn(T, T) -> bool) -> Seq<T>
    decreases v.len(),
{
    if v.len() == 0 {
        Seq::empty()
    } else {
        let s = sorted(v.drop_last(), before);
        s.insert(place(s, v.last(), before, 0), v.last())
    }
}

/// The likeness of the entries of type `T` as a function.
pub open spec fn like_of<T: Like>() -> spec_fn(T, T) -> bool {
    |a: T, b: T| a.like(b)
}

/// The merge of the entries of type `T` as a function.
pub open spec fn merge_of<T: Like>() -> spec_fn(T, T) -> T {
    |a: T, b: T| a.merged(b)
}

pub proof fn lemma_place_bounds<T>(s: Seq<T>, x: T, before: spec_fn(T, T) -> bool, from: int)
    requires
        0 <= from <= s.len(),
    ensures
        from <= place(s, x, before, from) <= s.len(),
    decreases s.len() - from,
{
    if from < s.len() && !before(x, s[from]) {
        lemma_place_bounds(s, x, before, from + 1);
    }
}

pub proof fn lemma_absorb_len<T>(
    acc: Seq<T>,
    x: T,
    like: spec_fn(T, T) -> bool,
    merge: spec_fn(T, T) -> T,
    from: int,
)
    requires
        0 <= from <= acc.len(),
    ensures
        acc.len() <= absorb(acc, x, like, merge, from).len() <= acc.len() + 1,
    decreases acc.len() - from,
{
    if from < acc.len() && !like(acc[from], x) {
        lemma_absorb_len(acc, x, like, merge, from + 1);
    }
}

/// Merging maps through: where `f` respects likeness and merging on the
/// entries that `ok` holds of, absorbing and then mapping is mapping and then
/// absorbing.
pub proof fn lemma_absorb_map<T, U>(
    acc: Seq<T>,
    x: T,
    f: spec_fn(T) -> U,
    ok: spec_fn(T) -> bool,
    like_t: spec_fn(T, T) -> bool,
    merge_t: spec_fn(T, T) -> T,
    like_u: spec_fn(U, U) -> bool,
    merge_u: spec_fn(U, U) -> U,
    from: int,
)
    requires
        0 <= from <= acc.len(),
        ok(x),
        forall|i: int| 0 <= i < acc.len() ==> ok(#[trigger] acc[i]),
        forall|a: T, b: T|
            ok(a) && ok(b) ==> #[trigger] like_t(a, b) == like_u(f(a), f(b)),
        forall|a: T, b: T|
            ok(a) && ok(b) ==> ok(#[trigger] merge_t(a, b)) && f(merge_t(a, b)) == merge_u(
                f(a),
                f(b),
            ),
    ensures
        absorb(acc, x, like_t, merge_t, from).map_values(f) == absorb(
            acc.map_values(f),
            f(x),
            like_u,
            merge_u,
            from,
        ),
        forall|i: int|
            0 <= i < absorb(acc, x, like_t, merge_t, from).len() ==> ok(
                #[trigger] absorb(acc, x, like_t, merge_t, from)[i],
            ),
    decreases acc.len() - from,
{
    let mapped = acc.map_values(f);
    if from >= acc.len() {
        assert(acc.push(x).map_values(f) =~= mapped.push(f(x)));
    } else {
        assert(ok(acc[from]));
        assert(like_t(acc[from], x) == like_u(f(acc[from]), f(x)));
        if like_t(acc[from], x) {
            assert(ok(merge_t(acc[from], x)));
            assert(acc.update(from, merge_t(acc[from], x)).map_values(f) =~= mapped.update(
                from,
                merge_u(mapped[from], f(x)),
            ));
        } else {
            lemma_absorb_map(acc, x, f, ok, like_t, merge_t, like_u, merge_u, from + 1);
        }
    }
}

/// Collecting maps through: see [`lemma_absorb_map`].
pub proof fn lemma_collected_map<T, U>(
    v: Seq<T>,
    f: spec_fn(T) -> U,
    ok: spec_fn(T) -> bool,
    like_t: spec_fn(T, T) -> bool,
    merge_t: spec_fn(T, T) -> T,
    like_u: spec_fn(U, U) -> bool,
    merge_u: spec_fn(U, U) -> U,
)
    requires
        forall|i: int| 0 <= i < v.len() ==> ok(#[trigger] v[i]),
        forall|a: T, b: T|
            ok(a) && ok(b) ==> #[trigger] like_t(a, b) == like_u(f(a), f(b)),
        forall|a: T, b: T|
            ok(a) && ok(b) ==> ok(#[trigger] merge_t(a, b)) && f(merge_t(a, b)) == merge_u(
                f(a),
                f(b),
            ),
    ensures
        collected(v, like_t, merge_t).map_values(f) == collected(
            v.map_values(f),
            like_u,
            merge_u,
        ),
        forall|i: int|
            0 <= i < collected(v, like_t, merge_t).len() ==> ok(
                #[trigger] collected(v, like_t, merge_t)[i],
            ),
    decreases v.len(),
{
    if v.len() == 0 {
        assert(Seq::<T>::empty().map_values(f) =~= Seq::<U>::empty());
        assert(v.map_values(f) =~= Seq::<U>::empty());
    } else {
        let rest = v.drop_last();
        lemma_collected_map(rest, f, ok, like_t, merge_t, like_u, merge_u);
        assert(v.map_values(f).drop_last() =~= rest.map_values(f));
        assert(v.map_values(f).last() == f(v.last()));
        lemma_absorb_map(
            collected(rest, like_t, merge_t),
            v.last(),
            f,
            ok,
            like_t,
            merge_t,
            like_u,
            merge_u,
            0,
        );
    }
}

/// Keeping maps through where `f` respects the test.
pub proof fn lemma_kept_map<T, U>(
    v: Seq<T>,
    f: spec_fn(T) -> U,
    keep_t: spec_fn(T) -> bool,
    keep_u: spec_fn(U) -> bool,
)
    requires
        forall|i: int| 0 <= i < v.len() ==> keep_t(#[trigger] v[i]) == keep_u(f(v[i])),
    ensures
        kept(v, keep_t).map_values(f) == kept(v.map_values(f), keep_u),
    decreases v.len(),
{
    if v.len() == 0 {
        assert(Seq::<T>::empty().map_values(f) =~= Seq::<U>::empty());
        assert(v.map_values(f) =~= Seq::<U>::empty());
    } else {
        let rest = v.drop_last();
        lemma_kept_map(rest, f, keep_t, keep_u);
        assert(v.map_values(f).drop_last() =~= rest.map_values(f));
        assert(v.map_values(f).last() == f(v.last()));
        assert(keep_t(v[v.len() - 1]) == keep_u(f(v[v.len() - 1])));
        if keep_t(v.last()) {
            assert(kept(rest, keep_t).push(v.last()).map_values(f) =~= kept(
                rest,
                keep_t,
            ).map_values(f).push(f(v.last())));
        }
    }
}

/// Every kept entry is an entry of `v` that `keep` holds of.
pub proof fn lemma_kept_members<T>(v: Seq<T>, keep: spec_fn(T) -> bool)
    ensures
        kept(v, keep).len() <= v.len(),
        forall|i: int|
            0 <= i < kept(v, keep).len() ==> keep(#[trigger] kept(v, keep)[i]) && v.contains(
                kept(v, keep)[i],
            ),
    decreases v.len(),
{
    if v.len() > 0 {
        let rest = v.drop_last();
        lemma_kept_members(rest, keep);
        assert forall|i: int| 0 <= i < kept(v, keep).len() implies keep(
            #[trigger] kept(v, keep)[i],
        ) && v.contains(kept(v, keep)[i]) by {
            if i < kept(rest, keep).len() {
                let x = kept(rest, keep)[i];
                assert(rest.contains(x));
                let j = choose|j: int| 0 <= j < rest.len() && rest[j] == x;
                assert(v[j] == x);
            } else {
                assert(v[v.len() - 1] == v.last());
            }
        }
    }
}

/// Merges like entries of `vec`: each entry is merged into the first
/// earlier entry that it is like, or kept where there is none.
pub fn collect_like<T: Like + Copy>(vec: Vec<T>) -> (r: Vec<T>)
    requires
        forall|i: int| 0 <= i < vec.len() ==> (#[trigger] vec@[i]).mergeable(),
    ensures
        r@ == collected(vec@, like_of::<T>(), merge_of::<T>()),
        forall|i: int| 0 <= i < r.len() ==> (#[trigger] r@[i]).mergeable(),
{
    let mut acc: Vec<T> = Vec::new();
    let mut i: usize = 0;
    while i < vec.len()
        invariant
            i <= vec.len(),
            acc@ == collected(vec@.take(i as int), like_of::<T>(), merge_of::<T>()),
            forall|k: int| 0 <= k < acc.len() ==> (#[trigger] acc@[k]).mergeable(),
            forall|k: int| 0 <= k < vec.len() ==> (#[trigger] vec@[k]).mergeable(),
        decreases vec.len() - i,
    {
        let item = vec[i];
        let ghost before = acc@;
        let mut j: usize = 0;
        let mut found = false;
        while j < acc.len() && !found
            invariant
                j <= acc.len(),
                item.mergeable(),
                !found ==> acc@ == before && absorb(
                    before,
                    item,
                    like_of::<T>(),
                    merge_of::<T>(),
                    0,
                ) == absorb(before, item, like_of::<T>(), merge_of::<T>(), j as int),
                found ==> acc@ == absorb(before, item, like_of::<T>(), merge_of::<T>(), 0),
                forall|k: int| 0 <= k < acc.len() ==> (#[trigger] acc@[k]).mergeable(),
            decreases acc.len() - j + (if found { 0int } else { 1int }),
        {
            if acc[j].is_like(&item) {
                let sum = acc[j].merge(&item);
                acc.set(j, sum);
                found = true;
            } else {
                j += 1;
            }
        }
        if !found {
            acc.push(item);
        }
        proof {
            assert(vec@.take(i as int + 1).drop_last() =~= vec@.take(i as int));
            assert(vec@.take(i as int + 1).last() == item);
        }
        i += 1;
    }
    proof {
        assert(vec@.take(vec.len() as int) =~= vec@);
    }
    acc
}

/// Collecting, keeping and sorting no entries yields no entries.
pub proof fn lemma_empty_stays<T>(
    like: spec_fn(T, T) -> bool,
    merge: spec_fn(T, T) -> T,
    keep: spec_fn(T) -> bool,
    before: spec_fn(T, T) -> bool,
)
    ensures
        collected(Seq::<T>::empty(), like, merge) == Seq::<T>::empty(),
        kept(Seq::<T>::empty(), keep) == Seq::<T>::empty(),
        sorted(Seq::<T>::empty(), before) == Seq::<T>::empty(),
{
}

/// Collecting a single entry leaves it alone.
pub proof fn lemma_collected_one<T>(x: T, like: spec_fn(T, T) -> bool, merge: spec_fn(T, T) -> T)
    ensures
        collected(seq![x], like, merge) == seq![x],
{
    reveal_with_fuel(collected, 2);
    assert(seq![x].drop_last() =~= Seq::<T>::empty());
    assert(Seq::<T>::empty().push(x) =~= seq![x]);
}

/// Collecting two entries merges them when they are alike and keeps both
/// when they are not.
pub proof fn lemma_collected_two<T>(
    x: T,
    y: T,
    like: spec_fn(T, T) -> bool,
    merge: spec_fn(T, T) -> T,
)
    ensures
        like(x, y) ==> collected(seq![x, y], like, merge) == seq![merge(x, y)],
        !like(x, y) ==> collected(seq![x, y], like, merge) == seq![x, y],
{
    lemma_collected_one(x, like, merge);
    assert(seq![x, y].drop_last() =~= seq![x]);
    assert(seq![x, y].last() == y);
    reveal_with_fuel(absorb, 3);
    if like(x, y) {
        assert(seq![x].update(0, merge(x, y)) =~= seq![merge(x, y)]);
    } else {
        assert(seq![x].push(y) =~= seq![x, y]);
    }
}

/// Collecting three entries of which each is like what came before merges
/// them in their order.
pub proof fn lemma_collected_three<T>(
    x: T,
    y: T,
    z: T,
    like: spec_fn(T, T) -> bool,
    merge: spec_fn(T, T) -> T,
)
    requires
        like(x, y),
        like(merge(x, y), z),
    ensures
        collected(seq![x, y, z], like, merge) == seq![merge(merge(x, y), z)],
{
    let m = merge(x, y);
    lemma_collected_two(x, y, like, merge);
    assert(seq![x, y, z].drop_last() =~= seq![x, y]);
    assert(seq![x, y, z].last() == z);
    reveal_with_fuel(absorb, 2);
    assert(seq![m].update(0, merge(m, z)) =~= seq![merge(m, z)]);
}

/// Collecting three entries of which two are alike and the third is like
/// neither merges the two at the place of the first of them.
pub proof fn lemma_collected_pair<T>(
    x: T,
    y: T,
    z: T,
    like: spec_fn(T, T) -> bool,
    merge: spec_fn(T, T) -> T,
)
    requires
        !like(x, y),
    ensures
        !like(x, z) && like(y, z) ==> collected(seq![x, y, z], like, merge) == seq![
            x,
            merge(y, z),
        ],
        like(x, z) ==> collected(seq![x, y, z], like, merge) == seq![merge(x, z), y],
{
    lemma_collected_two(x, y, like, merge);
    assert(seq![x, y, z].drop_last() =~= seq![x, y]);
    assert(seq![x, y, z].last() == z);
    reveal_with_fuel(absorb, 3);
    if like(x, z) {
        assert(seq![x, y].update(0, merge(x, z)) =~= seq![merge(x, z), y]);
    } else if like(y, z) {
        assert(seq![x, y].update(1, merge(y, z)) =~= seq![x, merge(y, z)]);
    }
}

/// Keeping from two entries of which one passes keeps that one.
pub proof fn lemma_kept_one_of_two<T>(x: T, y: T, keep: spec_fn(T) -> bool)
    ensures
        keep(x) && !keep(y) ==> kept(seq![x, y], keep) == seq![x],
        !keep(x) && keep(y) ==> kept(seq![x, y], keep) == seq![y],
{
    lemma_kept_small(x, keep);
    assert(seq![x, y].drop_last() =~= seq![x]);
    assert(seq![x, y].last() == y);
    if !keep(x) && keep(y) {
        assert(Seq::<T>::empty().push(y) =~= seq![y]);
    }
}

/// Keeping from no entries keeps none; from one, that one if it passes.
pub proof fn lemma_kept_small<T>(x: T, keep: spec_fn(T) -> bool)
    ensures
        kept(Seq::<T>::empty(), keep) == Seq::<T>::empty(),
        keep(x) ==> kept(seq![x], keep) == seq![x],
        !keep(x) ==> kept(seq![x], keep) == Seq::<T>::empty(),
{
    reveal_with_fuel(kept, 2);
    assert(seq![x].drop_last() =~= Seq::<T>::empty());
    assert(Seq::<T>::empty().push(x) =~= seq![x]);
}

/// Sorting no entries or one entry changes nothing.
pub proof fn lemma_sorted_small<T>(x: T, before: spec_fn(T, T) -> bool)
    ensures
        sorted(Seq::<T>::empty(), before) == Seq::<T>::empty(),
        sorted(seq![x], before) == seq![x],
{
    reveal_with_fuel(sorted, 2);
    reveal_with_fuel(place, 2);
    assert(seq![x].drop_last() =~= Seq::<T>::empty());
    assert(Seq::<T>::empty().insert(0, x) =~= seq![x]);
}

/// Sorting two entries puts the second first exactly when it is before the
/// first.
pub proof fn lemma_sorted_two<T>(x: T, y: T, before: spec_fn(T, T) -> bool)
    ensures
        before(y, x) ==> sorted(seq![x, y], before) == seq![y, x],
        !before(y, x) ==> sorted(seq![x, y], before) == seq![x, y],
{
    lemma_sorted_small(x, before);
    reveal_with_fuel(place, 3);
    assert(seq![x, y].drop_last() =~= seq![x]);
    assert(seq![x, y].last() == y);
    if before(y, x) {
        assert(seq![x].insert(0, y) =~= seq![y, x]);
    } else {
        assert(seq![x].insert(1, y) =~= seq![x, y]);
    }
}

/// No entry is before an earlier entry.
pub open spec fn is_sorted<T>(s: Seq<T>, before: spec_fn(T, T) -> bool) -> bool {
    forall|i: int, j: int| 0 <= i < j < s.len() ==> !before(#[trigger] s[j], #[trigger] s[i])
}

/// No two entries are alike.
pub open spec fn is_collected<T>(s: Seq<T>, like: spec_fn(T, T) -> bool) -> bool {
    forall|i: int, j: int| 0 <= i < j < s.len() ==> !like(#[trigger] s[i], #[trigger] s[j])
}

/// An entry that is before none of the entries from `from` on goes to the
/// end.
pub proof fn lemma_place_end<T>(s: Seq<T>, x: T, before: spec_fn(T, T) -> bool, from: int)
    requires
        0 <= from <= s.len(),
        forall|k: int| from <= k < s.len() ==> !before(x, #[trigger] s[k]),
    ensures
        place(s, x, before, from) == s.len(),
    decreases s.len() - from,
{
    if from < s.len() {
        assert(!before(x, s[from]));
        lemma_place_end(s, x, before, from + 1);
    }
}

/// The place of an entry: it is before the entry there and before none of
/// the earlier entries.
pub proof fn lemma_place_first<T>(s: Seq<T>, x: T, before: spec_fn(T, T) -> bool, from: int)
    requires
        0 <= from <= s.len(),
    ensures
        from <= place(s, x, before, from) <= s.len(),
        place(s, x, before, from) < s.len() ==> before(x, s[place(s, x, before, from)]),
        forall|k: int| from <= k < place(s, x, before, from) ==> !before(x, #[trigger] s[k]),
    decreases s.len() - from,
{
    if from < s.len() && !before(x, s[from]) {
        lemma_place_first(s, x, before, from + 1);
    }
}

/// Sorting leaves a sorted sequence as it is: a second pass changes
/// nothing.
pub proof fn lemma_sorted_fixed<T>(s: Seq<T>, before: spec_fn(T, T) -> bool)
    requires
        is_sorted(s, before),
    ensures
        sorted(s, before) == s,
    decreases s.len(),
{
    if s.len() > 0 {
        let rest = s.drop_last();
        assert forall|i: int, j: int| 0 <= i < j < rest.len() implies !before(
            #[trigger] rest[j],
            #[trigger] rest[i],
        ) by {
            assert(!before(s[j], s[i]));
        }
        lemma_sorted_fixed(rest, before);
        assert forall|k: int| 0 <= k < rest.len() implies !before(s.last(), #[trigger] rest[k]) by {
            assert(!before(s[s.len() - 1], s[k]));
        }
        lemma_place_end(rest, s.last(), before, 0);
        assert(rest.insert(rest.len() as int, s.last()) =~= s);
    }
}

/// An order on the entries that `ok` holds of: never both ways, and passed
/// on from entry to entry.
pub open spec fn is_strict_order<T>(before: spec_fn(T, T) -> bool, ok: spec_fn(T) -> bool) -> bool {
    &&& forall|a: T, b: T| ok(a) && ok(b) && #[trigger] before(a, b) ==> !before(b, a)
    &&& forall|a: T, b: T, c: T|
        ok(a) && ok(b) && ok(c) && #[trigger] before(a, b) && #[trigger] before(b, c) ==> before(
            a,
            c,
        )
}

/// Sorting yields a sorted sequence of the same kind of entries.
pub proof fn lemma_sorted_is_sorted<T>(
    v: Seq<T>,
    before: spec_fn(T, T) -> bool,
    ok: spec_fn(T) -> bool,
)
    requires
        is_strict_order(before, ok),
        forall|i: int| 0 <= i < v.len() ==> ok(#[trigger] v[i]),
    ensures
        is_sorted(sorted(v, before), before),
        sorted(v, before).len() == v.len(),
        forall|i: int| 0 <= i < v.len() ==> ok(#[trigger] sorted(v, before)[i]),
    decreases v.len(),
{
    if v.len() > 0 {
        let rest = v.drop_last();
        let x = v.last();
        assert(ok(v[v.len() - 1]));
        assert forall|i: int| 0 <= i < rest.len() implies ok(#[trigger] rest[i]) by {
            assert(ok(v[i]));
        }
        lemma_sorted_is_sorted(rest, before, ok);
        let s = sorted(rest, before);
        let p = place(s, x, before, 0);
        lemma_place_first(s, x, before, 0);
        let r = s.insert(p, x);
        assert forall|i: int| 0 <= i < r.len() implies ok(#[trigger] r[i]) by {
            if i < p {
                assert(r[i] == s[i]);
            } else if i > p {
                assert(r[i] == s[i - 1]);
            }
        }
        assert forall|i: int, j: int| 0 <= i < j < r.len() implies !before(
            #[trigger] r[j],
            #[trigger] r[i],
        ) by {
            if j < p {
                assert(r[i] == s[i] && r[j] == s[j]);
            } else if j == p {
                assert(r[i] == s[i]);
                assert(!before(x, s[i]));
            } else if i == p {
                assert(r[j] == s[j - 1]);
                assert(ok(s[j - 1]) && ok(s[p]));
                assert(before(x, s[p]));
                if j - 1 > p {
                    assert(!before(s[j - 1], s[p]));
                }
                if before(s[j - 1], x) {
                    assert(before(s[j - 1], s[p]));
                }
            } else if i < p {
                assert(r[i] == s[i] && r[j] == s[j - 1]);
                assert(!before(s[j - 1], s[i]));
            } else {
                assert(r[i] == s[i - 1] && r[j] == s[j - 1]);
                assert(!before(s[j - 1], s[i - 1]));
            }
        }
    }
}

/// An entry that is like none of the entries from `from` on is appended.
pub proof fn lemma_absorb_none<T>(
    acc: Seq<T>,
    x: T,
    like: spec_fn(T, T) -> bool,
    merge: spec_fn(T, T) -> T,
    from: int,
)
    requires
        0 <= from <= acc.len(),
        forall|k: int| from <= k < acc.len() ==> !like(#[trigger] acc[k], x),
    ensures
        absorb(acc, x, like, merge, from) == acc.push(x),
    decreases acc.len() - from,
{
    if from < acc.len() {
        assert(!like(acc[from], x));
        lemma_absorb_none(acc, x, like, merge, from + 1);
    }
}

/// Collecting changes nothing where no two entries are alike.
pub proof fn lemma_collected_fixed<T>(
    v: Seq<T>,
    like: spec_fn(T, T) -> bool,
    merge: spec_fn(T, T) -> T,
)
    requires
        is_collected(v, like),
    ensures
        collected(v, like, merge) == v,
    decreases v.len(),
{
    if v.len() > 0 {
        let rest = v.drop_last();
        assert forall|i: int, j: int| 0 <= i < j < rest.len() implies !like(
            #[trigger] rest[i],
            #[trigger] rest[j],
        ) by {
            assert(!like(v[i], v[j]));
        }
        lemma_collected_fixed(rest, like, merge);
        assert forall|k: int| 0 <= k < rest.len() implies !like(#[trigger] rest[k], v.last()) by {
            assert(!like(v[k], v[v.len() - 1]));
        }
        lemma_absorb_none(rest, v.last(), like, merge, 0);
        assert(rest.push(v.last()) =~= v);
    }
}

/// Keeping changes nothing where the test holds of every entry.
pub proof fn lemma_kept_fixed<T>(v: Seq<T>, keep: spec_fn(T) -> bool)
    requires
        forall|i: int| 0 <= i < v.len() ==> keep(#[trigger] v[i]),
    ensures
        kept(v, keep) == v,
    decreases v.len(),
{
    if v.len() > 0 {
        let rest = v.drop_last();
        assert forall|i: int| 0 <= i < rest.len() implies keep(#[trigger] rest[i]) by {
            assert(keep(v[i]));
        }
        lemma_kept_fixed(rest, keep);
        assert(keep(v[v.len() - 1]));
        assert(rest.push(v.last()) =~= v);
    }
}

/// Keeping leaves no two entries alike where none were.
pub proof fn lemma_kept_collected<T>(
    v: Seq<T>,
    keep: spec_fn(T) -> bool,
    like: spec_fn(T, T) -> bool,
)
    requires
        is_collected(v, like),
    ensures
        is_collected(kept(v, keep), like),
    decreases v.len(),
{
    if v.len() > 0 {
        let rest = v.drop_last();
        assert forall|i: int, j: int| 0 <= i < j < rest.len() implies !like(
            #[trigger] rest[i],
            #[trigger] rest[j],
        ) by {
            assert(!like(v[i], v[j]));
        }
        lemma_kept_collected(rest, keep, like);
        lemma_kept_members(rest, keep);
        let k = kept(rest, keep);
        if keep(v.last()) {
            let r = k.push(v.last());
            assert forall|i: int, j: int| 0 <= i < j < r.len() implies !like(
                #[trigger] r[i],
                #[trigger] r[j],
            ) by {
                if j == k.len() {
                    assert(rest.contains(k[i]));
                    let m = choose|m: int| 0 <= m < rest.len() && rest[m] == k[i];
                    assert(!like(v[m], v[v.len() - 1]));
                } else {
                    assert(!like(k[i], k[j]));
                }
            }
        }
    }
}

/// What holds of every entry holds of every entry that is kept.
pub proof fn lemma_kept_all<T>(v: Seq<T>, keep: spec_fn(T) -> bool, p: spec_fn(T) -> bool)
    requires
        forall|i: int| 0 <= i < v.len() ==> p(#[trigger] v[i]),
    ensures
        forall|i: int| 0 <= i < kept(v, keep).len() ==> p(#[trigger] kept(v, keep)[i]) && keep(
            kept(v, keep)[i],
        ),
{
    lemma_kept_members(v, keep);
    assert forall|i: int| 0 <= i < kept(v, keep).len() implies p(#[trigger] kept(v, keep)[i])
        && keep(kept(v, keep)[i]) by {
        let x = kept(v, keep)[i];
        assert(v.contains(x));
        let j = choose|j: int| 0 <= j < v.len() && v[j] == x;
        assert(p(v[j]));
    }
}

/// What holds of every entry holds of every entry of the sorted sequence,
/// and sorting leaves no two entries alike where none were, for a likeness
/// that does not depend on the order of the two.
pub proof fn lemma_sorted_keeps<T>(
    v: Seq<T>,
    before: spec_fn(T, T) -> bool,
    like: spec_fn(T, T) -> bool,
    p: spec_fn(T) -> bool,
)
    requires
        is_collected(v, like),
        forall|a: T, b: T| #[trigger] like(a, b) == like(b, a),
        forall|i: int| 0 <= i < v.len() ==> p(#[trigger] v[i]),
    ensures
        is_collected(sorted(v, before), like),
        forall|i: int| 0 <= i < sorted(v, before).len() ==> p(#[trigger] sorted(v, before)[i]),
        forall|i: int|
            0 <= i < sorted(v, before).len() ==> v.contains(#[trigger] sorted(v, before)[i]),
    decreases v.len(),
{
    if v.len() > 0 {
        let rest = v.drop_last();
        let x = v.last();
        assert forall|i: int, j: int| 0 <= i < j < rest.len() implies !like(
            #[trigger] rest[i],
            #[trigger] rest[j],
        ) by {
            assert(!like(v[i], v[j]));
        }
        assert forall|i: int| 0 <= i < rest.len() implies p(#[trigger] rest[i]) by {
            assert(p(v[i]));
        }
        lemma_sorted_keeps(rest, before, like, p);
        let s = sorted(rest, before);
        let at = place(s, x, before, 0);
        lemma_place_bounds(s, x, before, 0);
        let r = s.insert(at, x);
        assert(p(v[v.len() - 1]));
        assert forall|k: int| 0 <= k < s.len() implies !like(#[trigger] s[k], x) && v.contains(
            s[k],
        ) by {
            assert(rest.contains(s[k]));
            let m = choose|m: int| 0 <= m < rest.len() && rest[m] == s[k];
            assert(!like(v[m], v[v.len() - 1]));
            assert(v[m] == s[k]);
        }
        assert forall|i: int| 0 <= i < r.len() implies p(#[trigger] r[i]) && v.contains(r[i]) by {
            if i < at {
                assert(r[i] == s[i]);
            } else if i > at {
                assert(r[i] == s[i - 1]);
            } else {
                assert(v[v.len() - 1] == x);
            }
        }
        assert forall|i: int, j: int| 0 <= i < j < r.len() implies !like(
            #[trigger] r[i],
            #[trigger] r[j],
        ) by {
            let a = if i < at {
                i
            } else {
                i - 1
            };
            let b = if j < at {
                j
            } else {
                j - 1
            };
            if i == at {
                assert(r[j] == s[b]);
                assert(!like(s[b], x));
                assert(like(x, s[b]) == like(s[b], x));
            } else if j == at {
                assert(r[i] == s[a]);
                assert(!like(s[a], x));
            } else {
                assert(r[i] == s[a] && r[j] == s[b]);
                assert(!like(s[a], s[b]));
            }
        }
    }
}

/// Absorbing an entry into a sequence without like entries leaves it
/// without like entries, where entries are alike when they have the same
/// key and merging keeps the key of the first; and what holds of all
/// entries and is kept by merging still holds of all.
pub proof fn lemma_absorb_keys<T, K>(
    acc: Seq<T>,
    x: T,
    like: spec_fn(T, T) -> bool,
    merge: spec_fn(T, T) -> T,
    key: spec_fn(T) -> K,
    p: spec_fn(T) -> bool,
    from: int,
)
    requires
        forall|a: T, b: T| #[trigger] like(a, b) == (key(a) == key(b)),
        forall|a: T, b: T| p(a) && p(b) ==> key(#[trigger] merge(a, b)) == key(a) && p(merge(a, b)),
        is_collected(acc, like),
        forall|i: int| 0 <= i < acc.len() ==> p(#[trigger] acc[i]),
        p(x),
        0 <= from <= acc.len(),
        forall|k: int| 0 <= k < from ==> !like(#[trigger] acc[k], x),
    ensures
        is_collected(absorb(acc, x, like, merge, from), like),
        forall|i: int|
            0 <= i < absorb(acc, x, like, merge, from).len() ==> p(
                #[trigger] absorb(acc, x, like, merge, from)[i],
            ),
    decreases acc.len() - from,
{
    let r = absorb(acc, x, like, merge, from);
    if from >= acc.len() {
        assert(r == acc.push(x));
        assert forall|i: int, j: int| 0 <= i < j < r.len() implies !like(
            #[trigger] r[i],
            #[trigger] r[j],
        ) by {
            if j < acc.len() {
                assert(!like(acc[i], acc[j]));
            } else {
                assert(!like(acc[i], x));
            }
        }
    } else if like(acc[from], x) {
        let m = merge(acc[from], x);
        assert(p(acc[from]));
        assert(key(m) == key(acc[from]) && p(m));
        assert(r == acc.update(from, m));
        assert forall|i: int, j: int| 0 <= i < j < r.len() implies !like(
            #[trigger] r[i],
            #[trigger] r[j],
        ) by {
            assert(!like(acc[i], acc[j]));
            assert(like(r[i], r[j]) == (key(r[i]) == key(r[j])));
            assert(like(acc[i], acc[j]) == (key(acc[i]) == key(acc[j])));
        }
    } else {
        assert forall|k: int| 0 <= k < from + 1 implies !like(#[trigger] acc[k], x) by {}
        lemma_absorb_keys(acc, x, like, merge, key, p, from + 1);
    }
}

/// Collecting leaves no two entries alike, where entries are alike when
/// they have the same key and merging keeps the key of the first; and what
/// holds of all entries and is kept by merging holds of all collected
/// entries.
pub proof fn lemma_collected_keys<T, K>(
    v: Seq<T>,
    like: spec_fn(T, T) -> bool,
    merge: spec_fn(T, T) -> T,
    key: spec_fn(T) -> K,
    p: spec_fn(T) -> bool,
)
    requires
        forall|a: T, b: T| #[trigger] like(a, b) == (key(a) == key(b)),
        forall|a: T, b: T| p(a) && p(b) ==> key(#[trigger] merge(a, b)) == key(a) && p(merge(a, b)),
        forall|i: int| 0 <= i < v.len() ==> p(#[trigger] v[i]),
    ensures
        is_collected(collected(v, like, merge), like),
        forall|i: int|
            0 <= i < collected(v, like, merge).len() ==> p(#[trigger] collected(v, like, merge)[i]),
    decreases v.len(),
{
    if v.len() > 0 {
        let rest = v.drop_last();
        assert forall|i: int| 0 <= i < rest.len() implies p(#[trigger] rest[i]) by {
            assert(p(v[i]));
        }
        lemma_collected_keys(rest, like, merge, key, p);
        assert(p(v[v.len() - 1]));
        lemma_absorb_keys(collected(rest, like, merge), v.last(), like, merge, key, p, 0);
    }
}

} // verus!
