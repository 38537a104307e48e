//! Merging two sorted slices in one pass, into any sink.

use crate::model::{
    clones_of, clones_of_both, keyed, lemma_merged_step, lemma_rearranges_push, merged, rearranges, sorted_by,
    total_preorder,
};
use crate::writer::{added, extends, lemma_extends_push, lemma_extends_self, room_after, Sink};
use std::cmp::Ordering;
use vstd::std_specs::cmp::OrdSpec;
use vstd::prelude::*;

verus! {

/// `compare` can be called on every item of `l` against every item of `r`.
pub open spec fn callable_on<T, F: Fn(&T, &T) -> Ordering>(compare: F, l: Seq<T>, r: Seq<T>) -> bool {
    forall|i: int, j: int|
        0 <= i < l.len() && 0 <= j < r.len() ==> call_requires(compare, (&#[trigger] l[i], &#[trigger] r[j]))
}

/// `compare` decides as `le` does wherever a left item of `l` meets a right
/// item of `r`: it answers `Less` or `Equal` only where `le` puts the left item
/// first, and `Greater` only where `le` does not.
pub open spec fn decides_as<T, F: Fn(&T, &T) -> Ordering>(
    compare: F,
    le: spec_fn(T, T) -> bool,
    l: Seq<T>,
    r: Seq<T>,
) -> bool {
    forall|i: int, j: int, o: Ordering|
        0 <= i < l.len() && 0 <= j < r.len() && #[trigger] call_ensures(compare, (&l[i], &r[j]), o) ==> (le(
            l[i],
            r[j],
        ) <==> o != Ordering::Greater)
}

/// `le` is an order that `compare` decides by and that both `l` and `r` are
/// sorted in.
pub open spec fn sorted_for<T, F: Fn(&T, &T) -> Ordering>(
    compare: F,
    le: spec_fn(T, T) -> bool,
    l: Seq<T>,
    r: Seq<T>,
) -> bool {
    &&& decides_as(compare, le, l, r)
    &&& total_preorder(le)
    &&& sorted_by(l, le)
    &&& sorted_by(r, le)
}

/// The order of `T` itself: `a` goes before `b` unless it is the greater.
pub open spec fn natural_le<T: Ord>() -> spec_fn(T, T) -> bool {
    |a: T, b: T| a.cmp_spec(&b) != Ordering::Greater
}

/// The order by a key: `a` goes before `b` unless its key is the greater.
pub open spec fn le_by_key<T, K: Ord>(key_of: spec_fn(T) -> K) -> spec_fn(T, T) -> bool {
    keyed(key_of, natural_le::<K>())
}

/// `key` can be called on every item of `s`.
pub open spec fn key_callable_on<T, K, F: Fn(&T) -> K>(key: F, s: Seq<T>) -> bool {
    forall|i: int| 0 <= i < s.len() ==> call_requires(key, (&#[trigger] s[i],))
}

/// `key` gives for every item of `s` the key that `key_of` names.
pub open spec fn computes_key<T, K, F: Fn(&T) -> K>(key: F, key_of: spec_fn(T) -> K, s: Seq<T>) -> bool {
    forall|i: int, k: K| 0 <= i < s.len() && #[trigger] call_ensures(key, (&s[i],), k) ==> k == key_of(s[i])
}

/// Merges the sorted slices `lslice` and `rslice` into `tgt`, in the order of
/// `T`. Of two equal items the one of `lslice` comes first.
pub fn seq_merge<T, E>(lslice: &[T], rslice: &[T], tgt: &mut E) where T: Clone + Ord, E: Sink<T>
    requires
        old(tgt).room() matches Some(n) ==> lslice@.len() + rslice@.len() <= n,
    ensures
        extends(old(tgt).contents(), final(tgt).contents()),
        added(old(tgt).contents(), final(tgt).contents()).len() == lslice@.len() + rslice@.len(),
        clones_of_both(lslice@, rslice@, added(old(tgt).contents(), final(tgt).contents())),
        T::obeys_cmp_spec() ==> clones_of(
            merged(lslice@, rslice@, natural_le::<T>()),
            added(old(tgt).contents(), final(tgt).contents()),
        ),
        final(tgt).room() == room_after(old(tgt).room(), lslice@.len() + rslice@.len()),
        match (old(tgt).backing(), final(tgt).backing()) {
            (Some(a), Some(b)) => final(a)@ == final(b)@,
            (None, None) => true,
            _ => false,
        },
{
    let compare = |lhs: &T, rhs: &T| -> (o: Ordering)
        ensures
            T::obeys_cmp_spec() ==> o == lhs.cmp_spec(rhs),
        { lhs.cmp(rhs) };
    proof {
        if T::obeys_cmp_spec() {
            assert(decides_as(compare, natural_le::<T>(), lslice@, rslice@));
        }
    }
    seq_merge_by(lslice, rslice, tgt, compare)
}

/// Merges the sorted slices `lslice` and `rslice` into `tgt`, in the order of
/// the keys that `key` gives. Of two items with equal keys the one of `lslice`
/// comes first.
pub fn seq_merge_by_key<T, E, K, F>(lslice: &[T], rslice: &[T], tgt: &mut E, key: F) where
    T: Clone,
    E: Sink<T>,
    F: Fn(&T) -> K,
    K: Ord,

    requires
        key_callable_on(key, lslice@),
        key_callable_on(key, rslice@),
        old(tgt).room() matches Some(n) ==> lslice@.len() + rslice@.len() <= n,
    ensures
        extends(old(tgt).contents(), final(tgt).contents()),
        added(old(tgt).contents(), final(tgt).contents()).len() == lslice@.len() + rslice@.len(),
        clones_of_both(lslice@, rslice@, added(old(tgt).contents(), final(tgt).contents())),
        forall|key_of: spec_fn(T) -> K|
            K::obeys_cmp_spec() && #[trigger] computes_key(key, key_of, lslice@) && #[trigger] computes_key(
                key,
                key_of,
                rslice@,
            ) ==> clones_of(
                merged(lslice@, rslice@, le_by_key(key_of)),
                added(old(tgt).contents(), final(tgt).contents()),
            ),
        final(tgt).room() == room_after(old(tgt).room(), lslice@.len() + rslice@.len()),
        match (old(tgt).backing(), final(tgt).backing()) {
            (Some(a), Some(b)) => final(a)@ == final(b)@,
            (None, None) => true,
            _ => false,
        },
{
    let key_ref = &key;
    let compare = |lhs: &T, rhs: &T| -> (o: Ordering)
        requires
            call_requires(key_ref, (lhs,)),
            call_requires(key_ref, (rhs,)),
        ensures
            exists|ka: K, kb: K|
                {
                    &&& #[trigger] call_ensures(key_ref, (lhs,), ka)
                    &&& #[trigger] call_ensures(key_ref, (rhs,), kb)
                    &&& K::obeys_cmp_spec() ==> o == ka.cmp_spec(&kb)
                },
        {
            let ka = key_ref(lhs);
            let kb = key_ref(rhs);
            ka.cmp(&kb)
        };
    proof {
        assert forall|key_of: spec_fn(T) -> K|
            K::obeys_cmp_spec() && #[trigger] computes_key(key, key_of, lslice@) && #[trigger] computes_key(
                key,
                key_of,
                rslice@,
            ) implies decides_as(compare, le_by_key(key_of), lslice@, rslice@) by {}
    }
    seq_merge_by(lslice, rslice, tgt, compare)
}

/// Merges the sorted slices `lslice` and `rslice` into `tgt`, comparing by
/// `compare`. Of two items that compare as equal, the one of `lslice` comes
/// first.
pub fn seq_merge_by<T, E, F>(lslice: &[T], rslice: &[T], tgt: &mut E, compare: F) where
    T: Clone,
    E: Sink<T>,
    F: Fn(&T, &T) -> Ordering,

    requires
        callable_on(compare, lslice@, rslice@),
        old(tgt).room() matches Some(n) ==> lslice@.len() + rslice@.len() <= n,
    ensures
        extends(old(tgt).contents(), final(tgt).contents()),
        added(old(tgt).contents(), final(tgt).contents()).len() == lslice@.len() + rslice@.len(),
        clones_of_both(lslice@, rslice@, added(old(tgt).contents(), final(tgt).contents())),
        forall|le: spec_fn(T, T) -> bool| #[trigger]
            decides_as(compare, le, lslice@, rslice@) ==> clones_of(
                merged(lslice@, rslice@, le),
                added(old(tgt).contents(), final(tgt).contents()),
            ),
        final(tgt).room() == room_after(old(tgt).room(), lslice@.len() + rslice@.len()),
        match (old(tgt).backing(), final(tgt).backing()) {
            (Some(a), Some(b)) => final(a)@ == final(b)@,
            (None, None) => true,
            _ => false,
        },
{
    let compare_ref = &compare;
    let left_first = |a: &T, b: &T| -> (res: bool)
        requires
            call_requires(compare_ref, (a, b)),
        ensures
            exists|o: Ordering| #[trigger]
                call_ensures(compare_ref, (a, b), o) && (res <==> o != Ordering::Greater),
        {
            match compare_ref(a, b) {
                Ordering::Greater => false,
                _ => true,
            }
        };
    proof {
        assert forall|le: spec_fn(T, T) -> bool| #[trigger]
            decides_as(compare, le, lslice@, rslice@) implies answers_as(left_first, le, lslice@, rslice@) by {}
    }
    merge_into(lslice, rslice, tgt, &left_first)
}

/// `left_first` can be asked about every item of `l` against every item of `r`.
pub open spec fn askable_on<T, G: Fn(&T, &T) -> bool>(left_first: G, l: Seq<T>, r: Seq<T>) -> bool {
    forall|i: int, j: int|
        0 <= i < l.len() && 0 <= j < r.len() ==> call_requires(left_first, (&#[trigger] l[i], &#[trigger] r[j]))
}

/// `left_first` answers as `le` does wherever a left item of `l` meets a
/// right item of `r`: whatever it may answer there is what `le` says.
pub open spec fn answers_as<T, G: Fn(&T, &T) -> bool>(
    left_first: G,
    le: spec_fn(T, T) -> bool,
    l: Seq<T>,
    r: Seq<T>,
) -> bool {
    forall|i: int, j: int, res: bool|
        0 <= i < l.len() && 0 <= j < r.len() && #[trigger] call_ensures(left_first, (&l[i], &r[j]), res)
            ==> res == le(l[i], r[j])
}

/// What holds of `left_first` on two sequences holds on any stretches of them.
pub proof fn lemma_stretches<T, G: Fn(&T, &T) -> bool>(
    left_first: G,
    l: Seq<T>,
    r: Seq<T>,
    a: int,
    a2: int,
    b: int,
    b2: int,
)
    requires
        0 <= a <= a2 <= l.len(),
        0 <= b <= b2 <= r.len(),
    ensures
        askable_on(left_first, l, r) ==> askable_on(left_first, l.subrange(a, a2), r.subrange(b, b2)),
        forall|le: spec_fn(T, T) -> bool| #[trigger]
            answers_as(left_first, le, l, r) ==> answers_as(
                left_first,
                le,
                l.subrange(a, a2),
                r.subrange(b, b2),
            ),
{
}

/// The two-pointer merge itself: compares the fronts of what is left of
/// `lslice` and `rslice`, asks `left_first` which goes first, and hands a clone
/// of it to `tgt`, until both are used up. The left front is taken unless
/// `left_first` says no.
pub fn merge_into<T, E, G>(lslice: &[T], rslice: &[T], tgt: &mut E, left_first: &G) where
    T: Clone,
    E: Sink<T>,
    G: Fn(&T, &T) -> bool,

    requires
        askable_on(*left_first, lslice@, rslice@),
        old(tgt).room() matches Some(n) ==> lslice@.len() + rslice@.len() <= n,
    ensures
        extends(old(tgt).contents(), final(tgt).contents()),
        added(old(tgt).contents(), final(tgt).contents()).len() == lslice@.len() + rslice@.len(),
        clones_of_both(lslice@, rslice@, added(old(tgt).contents(), final(tgt).contents())),
        forall|le: spec_fn(T, T) -> bool| #[trigger]
            answers_as(*left_first, le, lslice@, rslice@) ==> clones_of(
                merged(lslice@, rslice@, le),
                added(old(tgt).contents(), final(tgt).contents()),
            ),
        final(tgt).room() == room_after(old(tgt).room(), lslice@.len() + rslice@.len()),
        match (old(tgt).backing(), final(tgt).backing()) {
            (Some(a), Some(b)) => final(a)@ == final(b)@,
            (None, None) => true,
            _ => false,
        },
{
    let mut i: usize = 0;
    let mut j: usize = 0;
    let ghost mut picked: Seq<T> = Seq::empty();
    proof {
        assert(lslice@.skip(0) =~= lslice@);
        assert(rslice@.skip(0) =~= rslice@);
        lemma_extends_self(tgt.contents());
        assert(picked.to_multiset() =~= lslice@.take(0).to_multiset().add(rslice@.take(0).to_multiset())) by {
            broadcast use vstd::seq_lib::group_to_multiset_ensures;
        }
    }
    while i < lslice.len() || j < rslice.len()
        invariant
            i <= lslice@.len(),
            j <= rslice@.len(),
            askable_on(*left_first, lslice@, rslice@),
            old(tgt).room() matches Some(n) ==> lslice@.len() + rslice@.len() <= n,
            extends(old(tgt).contents(), tgt.contents()),
            clones_of(picked, added(old(tgt).contents(), tgt.contents())),
            picked.len() == i + j,
            rearranges(lslice@.take(i as int), rslice@.take(j as int), picked),
            forall|le: spec_fn(T, T) -> bool| #[trigger]
                answers_as(*left_first, le, lslice@, rslice@) ==> merged(lslice@, rslice@, le) == picked
                    + merged(lslice@.skip(i as int), rslice@.skip(j as int), le),
            tgt.room() == room_after(old(tgt).room(), picked.len()),
            match (old(tgt).backing(), tgt.backing()) {
                (Some(a), Some(b)) => final(a)@ == final(b)@,
                (None, None) => true,
                _ => false,
            },
        decreases lslice@.len() - i + rslice@.len() - j,
    {
        let ghost before = tgt.contents();
        let take_left = if j == rslice.len() {
            true
        } else if i == lslice.len() {
            false
        } else {
            left_first(&lslice[i], &rslice[j])
        };
        let ghost (gi, gj) = (i as int, j as int);
        if take_left {
            let item = lslice[i].clone();
            tgt.emit(item);
            proof {
                lemma_rearranges_push(lslice@.take(gi), rslice@.take(gj), picked, lslice@[gi]);
                assert(lslice@.take(gi + 1) =~= lslice@.take(gi).push(lslice@[gi]));
                picked = picked.push(lslice@[gi]);
                assert forall|le: spec_fn(T, T) -> bool| #[trigger]
                    answers_as(*left_first, le, lslice@, rslice@) implies merged(lslice@, rslice@, le)
                    == picked + merged(lslice@.skip(gi + 1), rslice@.skip(gj), le) by {
                    lemma_merged_step(lslice@, rslice@, le, gi, gj);
                }
            }
            i += 1;
        } else {
            let item = rslice[j].clone();
            tgt.emit(item);
            proof {
                lemma_rearranges_push(lslice@.take(gi), rslice@.take(gj), picked, rslice@[gj]);
                assert(rslice@.take(gj + 1) =~= rslice@.take(gj).push(rslice@[gj]));
                picked = picked.push(rslice@[gj]);
                assert forall|le: spec_fn(T, T) -> bool| #[trigger]
                    answers_as(*left_first, le, lslice@, rslice@) implies merged(lslice@, rslice@, le)
                    == picked + merged(lslice@.skip(gi), rslice@.skip(gj + 1), le) by {
                    lemma_merged_step(lslice@, rslice@, le, gi, gj);
                }
            }
            j += 1;
        }
        proof {
            lemma_extends_push(old(tgt).contents(), before, tgt.contents().last());
        }
    }
}

} // verus!
