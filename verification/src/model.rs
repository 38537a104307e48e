//! The mathematical model of merging: what the stable merge of two sequences
//! is, and what holds of it.

use crate::cuts::lemma_aligned_split;
use vstd::prelude::*;

verus! {

/// The stable merge of `l` and `r`, where `le(a, b)` says that the left item
/// `a` goes before the right item `b`. The fronts of the two sequences are
/// compared; the left front is taken unless `le` denies it, so of two items
/// that `le` ranks alike the left one comes first.
pub open spec fn merged<T>(l: Seq<T>, r: Seq<T>, le: spec_fn(T, T) -> bool) -> Seq<T>
    decreases l.len() + r.len(),
{
    if l.len() == 0 {
        r
    } else if r.len() == 0 {
        l
    } else if le(l[0], r[0]) {
        seq![l[0]] + merged(l.skip(1), r, le)
    } else {
        seq![r[0]] + merged(l, r.skip(1), le)
    }
}

/// `le` relates any two items one way or the other, and is transitive.
pub open spec fn total_preorder<T>(le: spec_fn(T, T) -> bool) -> bool {
    &&& forall|a: T, b: T| #[trigger] le(a, b) || le(b, a)
    &&& forall|a: T, b: T, c: T| #[trigger] le(a, b) && #[trigger] le(b, c) ==> le(a, c)
}

/// No item of `s` is followed by one that `le` puts strictly before it.
pub open spec fn sorted_by<T>(s: Seq<T>, le: spec_fn(T, T) -> bool) -> bool {
    forall|i: int, j: int| 0 <= i <= j < s.len() ==> le(#[trigger] s[i], #[trigger] s[j])
}

/// The order of items that have keys: an item goes before another where
/// `le` puts its key before the other's.
pub open spec fn keyed<T, K>(key_of: spec_fn(T) -> K, le: spec_fn(K, K) -> bool) -> spec_fn(T, T) -> bool {
    |a: T, b: T| le(key_of(a), key_of(b))
}

/// `out` holds, item for item, a clone of what `src` holds.
pub open spec fn clones_of<T: Clone>(src: Seq<T>, out: Seq<T>) -> bool {
    &&& out.len() == src.len()
    &&& forall|i: int| 0 <= i < src.len() ==> cloned(#[trigger] src[i], out[i])
}

/// `m` is a rearrangement of the items of `l` and `r`: it holds each item as
/// often as the two together do.
pub open spec fn rearranges<T>(l: Seq<T>, r: Seq<T>, m: Seq<T>) -> bool {
    m.to_multiset() == l.to_multiset().add(r.to_multiset())
}

/// `out` holds, clone for clone, a rearrangement of the items of `l` and `r`:
/// nothing of them is lost, and nothing else has come in.
pub open spec fn clones_of_both<T: Clone>(l: Seq<T>, r: Seq<T>, out: Seq<T>) -> bool {
    exists|m: Seq<T>| #[trigger] rearranges(l, r, m) && clones_of(m, out)
}

/// The merge holds every item of both inputs.
pub proof fn lemma_merged_len<T>(l: Seq<T>, r: Seq<T>, le: spec_fn(T, T) -> bool)
    ensures
        merged(l, r, le).len() == l.len() + r.len(),
    decreases l.len() + r.len(),
{
    if l.len() > 0 && r.len() > 0 {
        if le(l[0], r[0]) {
            lemma_merged_len(l.skip(1), r, le);
        } else {
            lemma_merged_len(l, r.skip(1), le);
        }
    }
}

/// One step of the merge, seen from the positions `i` and `j` that it has
/// reached in `l` and `r`.
pub proof fn lemma_merged_step<T>(l: Seq<T>, r: Seq<T>, le: spec_fn(T, T) -> bool, i: int, j: int)
    requires
        0 <= i <= l.len(),
        0 <= j <= r.len(),
    ensures
        merged(l.skip(i), r.skip(j), le) == if i == l.len() {
            r.skip(j)
        } else if j == r.len() {
            l.skip(i)
        } else if le(l[i], r[j]) {
            seq![l[i]] + merged(l.skip(i + 1), r.skip(j), le)
        } else {
            seq![r[j]] + merged(l.skip(i), r.skip(j + 1), le)
        },
{
    if i < l.len() && j < r.len() {
        assert(l.skip(i).skip(1) =~= l.skip(i + 1));
        assert(r.skip(j).skip(1) =~= r.skip(j + 1));
    }
}

/// Merging with an empty sequence gives the other sequence back unchanged.
pub proof fn lemma_merged_with_empty<T>(a: Seq<T>, le: spec_fn(T, T) -> bool)
    ensures
        merged(a, Seq::empty(), le) == a,
        merged(Seq::empty(), a, le) == a,
{
}

/// The merge is a rearrangement of the two inputs: it holds each item as often
/// as the inputs together do.
pub proof fn lemma_merged_is_permutation<T>(l: Seq<T>, r: Seq<T>, le: spec_fn(T, T) -> bool)
    ensures
        rearranges(l, r, merged(l, r, le)),
    decreases l.len() + r.len(),
{
    broadcast use vstd::seq_lib::group_to_multiset_ensures;
    if l.len() == 0 {
        assert(l.to_multiset().add(r.to_multiset()) =~= r.to_multiset());
    } else if r.len() == 0 {
        assert(l.to_multiset().add(r.to_multiset()) =~= l.to_multiset());
    } else if le(l[0], r[0]) {
        let rest = merged(l.skip(1), r, le);
        lemma_merged_is_permutation(l.skip(1), r, le);
        vstd::seq_lib::lemma_multiset_commutative(seq![l[0]], rest);
        vstd::seq_lib::lemma_multiset_commutative(seq![l[0]], l.skip(1));
        assert(seq![l[0]] + l.skip(1) =~= l);
        assert(merged(l, r, le).to_multiset() =~= l.to_multiset().add(r.to_multiset()));
    } else {
        let rest = merged(l, r.skip(1), le);
        lemma_merged_is_permutation(l, r.skip(1), le);
        vstd::seq_lib::lemma_multiset_commutative(seq![r[0]], rest);
        vstd::seq_lib::lemma_multiset_commutative(seq![r[0]], r.skip(1));
        assert(seq![r[0]] + r.skip(1) =~= r);
        assert(merged(l, r, le).to_multiset() =~= l.to_multiset().add(r.to_multiset()));
    }
}

/// What holds of every item of both inputs holds of every item of the merge.
pub proof fn lemma_merged_items<T>(
    l: Seq<T>,
    r: Seq<T>,
    le: spec_fn(T, T) -> bool,
    p: spec_fn(T) -> bool,
)
    requires
        forall|i: int| 0 <= i < l.len() ==> p(#[trigger] l[i]),
        forall|j: int| 0 <= j < r.len() ==> p(#[trigger] r[j]),
    ensures
        forall|k: int| 0 <= k < merged(l, r, le).len() ==> p(#[trigger] merged(l, r, le)[k]),
    decreases l.len() + r.len(),
{
    if l.len() > 0 && r.len() > 0 {
        if le(l[0], r[0]) {
            lemma_merged_items(l.skip(1), r, le, p);
            assert(merged(l, r, le) == seq![l[0]] + merged(l.skip(1), r, le));
        } else {
            lemma_merged_items(l, r.skip(1), le, p);
            assert(merged(l, r, le) == seq![r[0]] + merged(l, r.skip(1), le));
        }
    }
}

/// Merging two sorted sequences gives a sorted sequence.
pub proof fn lemma_merged_is_sorted<T>(l: Seq<T>, r: Seq<T>, le: spec_fn(T, T) -> bool)
    requires
        total_preorder(le),
        sorted_by(l, le),
        sorted_by(r, le),
    ensures
        sorted_by(merged(l, r, le), le),
    decreases l.len() + r.len(),
{
    if l.len() > 0 && r.len() > 0 {
        // the front that is taken goes before all that is left
        let first = if le(l[0], r[0]) { l[0] } else { r[0] };
        let l2 = if le(l[0], r[0]) { l.skip(1) } else { l };
        let r2 = if le(l[0], r[0]) { r } else { r.skip(1) };
        let after = |y: T| le(first, y);
        lemma_merged_items(l2, r2, le, after);
        lemma_merged_is_sorted(l2, r2, le);
    }
}

/// Ties go to the left: where `le` puts every left item before every right
/// item, and so also where it ranks them all alike, the merge is the left
/// sequence followed by the right one.
pub proof fn lemma_merged_left_first<T>(l: Seq<T>, r: Seq<T>, le: spec_fn(T, T) -> bool)
    requires
        forall|i: int, j: int| 0 <= i < l.len() && 0 <= j < r.len() ==> le(#[trigger] l[i], #[trigger] r[j]),
    ensures
        merged(l, r, le) == l + r,
    decreases l.len(),
{
    if l.len() > 0 && r.len() > 0 {
        lemma_merged_left_first(l.skip(1), r, le);
    }
}

/// Merging by key looks at the keys alone: the keys of the merged items are
/// the merge of the keys. What else an item carries, a tag that tells where it
/// came from, goes along with it and has no say.
pub proof fn lemma_merged_keys<T, K>(
    l: Seq<T>,
    r: Seq<T>,
    key_of: spec_fn(T) -> K,
    le: spec_fn(K, K) -> bool,
)
    ensures
        merged(l, r, keyed(key_of, le)).map_values(key_of) == merged(
            l.map_values(key_of),
            r.map_values(key_of),
            le,
        ),
    decreases l.len() + r.len(),
{
    let by_key = keyed(key_of, le);
    let (lk, rk) = (l.map_values(key_of), r.map_values(key_of));
    if l.len() > 0 && r.len() > 0 {
        if by_key(l[0], r[0]) {
            lemma_merged_keys(l.skip(1), r, key_of, le);
            assert(l.skip(1).map_values(key_of) =~= lk.skip(1));
        } else {
            lemma_merged_keys(l, r.skip(1), key_of, le);
            assert(r.skip(1).map_values(key_of) =~= rk.skip(1));
        }
    }
}

/// Where a left item stands in the merge of sorted sequences: behind the left
/// items before it and behind the `b` right items that go strictly before it,
/// and nothing else.
pub proof fn lemma_left_place<T>(l: Seq<T>, r: Seq<T>, le: spec_fn(T, T) -> bool, i: int, b: int)
    requires
        total_preorder(le),
        sorted_by(l, le),
        sorted_by(r, le),
        0 <= i < l.len(),
        0 <= b <= r.len(),
        b > 0 ==> !le(l[i], r[b - 1]),
        b < r.len() ==> le(l[i], r[b]),
    ensures
        merged(l, r, le)[i + b] == l[i],
{
    lemma_aligned_split(l, r, le, i, b);
    lemma_merged_len(l.take(i), r.take(b), le);
}

/// Where a right item stands in the merge of sorted sequences: behind the
/// right items before it and behind the `a` left items that do not go behind
/// it, and nothing else.
pub proof fn lemma_right_place<T>(l: Seq<T>, r: Seq<T>, le: spec_fn(T, T) -> bool, a: int, j: int)
    requires
        total_preorder(le),
        sorted_by(l, le),
        sorted_by(r, le),
        0 <= a <= l.len(),
        0 <= j < r.len(),
        a > 0 ==> le(l[a - 1], r[j]),
        a < l.len() ==> !le(l[a], r[j]),
    ensures
        merged(l, r, le)[a + j] == r[j],
{
    lemma_aligned_split(l, r, le, a, j);
    lemma_merged_len(l.take(a), r.take(j), le);
}

/// Stability: in the merge of sorted sequences a left item stands before every
/// right item that does not go strictly before it, so before every right item
/// that ranks as it does. Here `i + b` is the place of `l[i]` and `a + j` the
/// place of `r[j]`, as in the two lemmas above.
pub proof fn lemma_left_stands_first<T>(
    l: Seq<T>,
    r: Seq<T>,
    le: spec_fn(T, T) -> bool,
    i: int,
    b: int,
    a: int,
    j: int,
)
    requires
        total_preorder(le),
        sorted_by(l, le),
        sorted_by(r, le),
        0 <= i < l.len(),
        0 <= b <= r.len(),
        b > 0 ==> !le(l[i], r[b - 1]),
        b < r.len() ==> le(l[i], r[b]),
        0 <= a <= l.len(),
        0 <= j < r.len(),
        a > 0 ==> le(l[a - 1], r[j]),
        a < l.len() ==> !le(l[a], r[j]),
        le(l[i], r[j]),
    ensures
        i + b < a + j,
        merged(l, r, le)[i + b] == l[i],
        merged(l, r, le)[a + j] == r[j],
{
    lemma_left_place(l, r, le, i, b);
    lemma_right_place(l, r, le, a, j);
}

/// A sequence is a rearrangement of itself and of nothing.
pub proof fn lemma_rearranges_one<T>(a: Seq<T>)
    ensures
        rearranges(a, Seq::empty(), a),
        rearranges(Seq::empty(), a, a),
{
    broadcast use vstd::seq_lib::group_to_multiset_ensures;
    let none = Seq::<T>::empty().to_multiset();
    assert(a.to_multiset().add(none) =~= a.to_multiset());
    assert(none.add(a.to_multiset()) =~= a.to_multiset());
}

/// A rearrangement stays one when the same item is put behind it and behind
/// either of the two sequences.
pub proof fn lemma_rearranges_push<T>(l: Seq<T>, r: Seq<T>, m: Seq<T>, x: T)
    requires
        rearranges(l, r, m),
    ensures
        rearranges(l.push(x), r, m.push(x)),
        rearranges(l, r.push(x), m.push(x)),
{
    broadcast use vstd::seq_lib::group_to_multiset_ensures;
    assert(m.push(x).to_multiset() =~= l.push(x).to_multiset().add(r.to_multiset()));
    assert(m.push(x).to_multiset() =~= l.to_multiset().add(r.push(x).to_multiset()));
}

/// Rearrangements of consecutive stretches of `l` and `r`, put end to end, are
/// a rearrangement of the stretches put end to end.
pub proof fn lemma_rearranges_concat<T>(l1: Seq<T>, r1: Seq<T>, m1: Seq<T>, l2: Seq<T>, r2: Seq<T>, m2: Seq<T>)
    requires
        rearranges(l1, r1, m1),
        rearranges(l2, r2, m2),
    ensures
        rearranges(l1 + l2, r1 + r2, m1 + m2),
{
    vstd::seq_lib::lemma_multiset_commutative(l1, l2);
    vstd::seq_lib::lemma_multiset_commutative(r1, r2);
    vstd::seq_lib::lemma_multiset_commutative(m1, m2);
    assert((m1 + m2).to_multiset() =~= (l1 + l2).to_multiset().add((r1 + r2).to_multiset()));
}

/// Where a clone of `T` is always equal to what it was made from, a sequence
/// of clones is the sequence itself.
pub proof fn lemma_exact_clones<T: Clone>(src: Seq<T>, out: Seq<T>)
    requires
        clones_of(src, out),
        forall|a: T, b: T| #[trigger] cloned(a, b) ==> a == b,
    ensures
        out == src,
{
}

/// The merge in one pass and the merge in blocks agree. Both give, clone for
/// clone, the merge of the model; so where clones are exact and the inputs
/// sorted, what they give is the same sequence, and it is sorted and holds the
/// items of both inputs, none lost and none added.
pub proof fn lemma_merges_agree<T: Clone>(
    l: Seq<T>,
    r: Seq<T>,
    le: spec_fn(T, T) -> bool,
    in_one_pass: Seq<T>,
    in_blocks: Seq<T>,
)
    requires
        total_preorder(le),
        sorted_by(l, le),
        sorted_by(r, le),
        clones_of(merged(l, r, le), in_one_pass),
        clones_of(merged(l, r, le), in_blocks),
        forall|a: T, b: T| #[trigger] cloned(a, b) ==> a == b,
    ensures
        in_one_pass == in_blocks,
        sorted_by(in_one_pass, le),
        rearranges(l, r, in_one_pass),
{
    lemma_exact_clones(merged(l, r, le), in_one_pass);
    lemma_exact_clones(merged(l, r, le), in_blocks);
    lemma_merged_is_sorted(l, r, le);
    lemma_merged_is_permutation(l, r, le);
}

/// Clones of blocks, put end to end, are a clone of the blocks put end to end.
pub proof fn lemma_clones_of_blocks<T: Clone>(src: Seq<Seq<T>>, out: Seq<Seq<T>>)
    requires
        src.len() == out.len(),
        forall|k: int| 0 <= k < src.len() ==> clones_of(#[trigger] src[k], out[k]),
    ensures
        clones_of(src.flatten(), out.flatten()),
    decreases src.len(),
{
    if src.len() == 0 {
    } else {
        lemma_clones_of_blocks(src.drop_last(), out.drop_last());
        assert(src =~= src.drop_last().push(src.last()));
        assert(out =~= out.drop_last().push(out.last()));
        src.drop_last().lemma_flatten_push(src.last());
        out.drop_last().lemma_flatten_push(out.last());
    }
}

} // verus!
