//! Cuts of the two inputs of a merge: where a merge can be taken apart into
//! the merges of blocks, and what a plan of such cuts is.

use crate::model::{lemma_rearranges_concat, merged, rearranges, sorted_by, total_preorder};
use vstd::prelude::*;

verus! {

/// A cut of `l` at `a` and of `r` at `b` is aligned when the merge never has to
/// look across it: every left item before the cut goes before the first right
/// item after it, and no right item before the cut waits for the first left
/// item after it.
pub open spec fn aligned<T>(l: Seq<T>, r: Seq<T>, le: spec_fn(T, T) -> bool, a: int, b: int) -> bool {
    &&& 0 <= a <= l.len()
    &&& 0 <= b <= r.len()
    &&& b < r.len() ==> forall|i: int| 0 <= i < a ==> le(#[trigger] l[i], r[b])
    &&& a < l.len() ==> forall|j: int| 0 <= j < b ==> !le(l[a], #[trigger] r[j])
}

/// At an aligned cut the merge falls apart into the merge of what lies before
/// the cut and the merge of what lies after it.
pub proof fn lemma_aligned_split<T>(l: Seq<T>, r: Seq<T>, le: spec_fn(T, T) -> bool, a: int, b: int)
    requires
        aligned(l, r, le, a, b),
    ensures
        merged(l, r, le) == merged(l.take(a), r.take(b), le) + merged(l.skip(a), r.skip(b), le),
    decreases a + b,
{
    if a == 0 && b == 0 {
        assert(l.skip(0) =~= l);
        assert(r.skip(0) =~= r);
    } else if l.len() > 0 && r.len() > 0 {
        if a == 0 || (b > 0 && !le(l[0], r[0])) {
            // the right front is taken and lies before the cut
            let r1 = r.skip(1);
            lemma_aligned_split(l, r1, le, a, b - 1);
            assert(r1.take(b - 1) =~= r.take(b).skip(1));
            assert(r1.skip(b - 1) =~= r.skip(b));
        } else {
            // the left front is taken and lies before the cut
            let l1 = l.skip(1);
            lemma_aligned_split(l1, r, le, a - 1, b);
            assert(l1.take(a - 1) =~= l.take(a).skip(1));
            assert(l1.skip(a - 1) =~= l.skip(a));
        }
    }
}

/// In sorted sequences, a cut behind the left item `l[a - 1]` is aligned with
/// the cut of `r` at the first item that does not go before it.
pub proof fn lemma_cut_behind_left<T>(l: Seq<T>, r: Seq<T>, le: spec_fn(T, T) -> bool, a: int, b: int)
    requires
        total_preorder(le),
        sorted_by(l, le),
        sorted_by(r, le),
        0 < a <= l.len(),
        0 <= b <= r.len(),
        b > 0 ==> !le(l[a - 1], r[b - 1]),
        b < r.len() ==> le(l[a - 1], r[b]),
    ensures
        aligned(l, r, le, a, b),
{
}

/// In sorted sequences, a cut behind the right item `r[b - 1]` is aligned
/// with the cut of `l` behind the last item that goes before it.
pub proof fn lemma_cut_behind_right<T>(l: Seq<T>, r: Seq<T>, le: spec_fn(T, T) -> bool, a: int, b: int)
    requires
        total_preorder(le),
        sorted_by(l, le),
        sorted_by(r, le),
        0 <= a <= l.len(),
        0 < b <= r.len(),
        a > 0 ==> le(l[a - 1], r[b - 1]),
        a < l.len() ==> !le(l[a], r[b - 1]),
    ensures
        aligned(l, r, le, a, b),
{
}

/// In sorted sequences, behind an aligned cut that has all of `l` before it,
/// every cut of `r` is aligned too; and likewise with the sides exchanged.
pub proof fn lemma_cut_in_remainder<T>(
    l: Seq<T>,
    r: Seq<T>,
    le: spec_fn(T, T) -> bool,
    a: int,
    b: int,
    a2: int,
    b2: int,
)
    requires
        total_preorder(le),
        sorted_by(l, le),
        sorted_by(r, le),
        aligned(l, r, le, a, b),
        a == l.len() || b == r.len(),
        a <= a2 <= l.len(),
        b <= b2 <= r.len(),
    ensures
        aligned(l, r, le, a2, b2),
{
}

/// The positions in `cuts` start at 0, end at `len` and never decrease: they
/// cut a sequence of that length into consecutive blocks.
pub open spec fn cuts_of(cuts: Seq<int>, len: nat) -> bool {
    &&& cuts.len() >= 1
    &&& cuts[0] == 0
    &&& cuts.last() == len
    &&& forall|i: int, j: int| 0 <= i <= j < cuts.len() ==> cuts[i] <= cuts[j]
}

/// A partition plan: `lcuts` and `rcuts` cut `l` and `r` into equally many
/// blocks, and each pair of cuts is aligned.
pub open spec fn is_plan<T>(
    l: Seq<T>,
    r: Seq<T>,
    le: spec_fn(T, T) -> bool,
    lcuts: Seq<int>,
    rcuts: Seq<int>,
) -> bool {
    &&& lcuts.len() == rcuts.len()
    &&& cuts_of(lcuts, l.len())
    &&& cuts_of(rcuts, r.len())
    &&& forall|k: int| 0 <= k < lcuts.len() ==> aligned(l, r, le, #[trigger] lcuts[k], rcuts[k])
}

/// The merges of the pairs of blocks of a plan, one for each pair.
pub open spec fn block_merges<T>(
    l: Seq<T>,
    r: Seq<T>,
    le: spec_fn(T, T) -> bool,
    lcuts: Seq<int>,
    rcuts: Seq<int>,
) -> Seq<Seq<T>> {
    Seq::new(
        (lcuts.len() - 1) as nat,
        |k: int| merged(l.subrange(lcuts[k], lcuts[k + 1]), r.subrange(rcuts[k], rcuts[k + 1]), le),
    )
}

/// The first `n` block merges of a plan, put end to end, are the merge of what
/// lies before the plan's cuts with index `n`.
proof fn lemma_plan_prefix<T>(
    l: Seq<T>,
    r: Seq<T>,
    le: spec_fn(T, T) -> bool,
    lcuts: Seq<int>,
    rcuts: Seq<int>,
    n: int,
)
    requires
        is_plan(l, r, le, lcuts, rcuts),
        0 <= n < lcuts.len(),
    ensures
        block_merges(l, r, le, lcuts, rcuts).take(n).flatten() == merged(
            l.take(lcuts[n]),
            r.take(rcuts[n]),
            le,
        ),
    decreases n,
{
    let blocks = block_merges(l, r, le, lcuts, rcuts);
    if n > 0 {
        lemma_plan_prefix(l, r, le, lcuts, rcuts, n - 1);
        let (a, b) = (lcuts[n - 1], rcuts[n - 1]);
        let (a2, b2) = (lcuts[n], rcuts[n]);
        let (l2, r2) = (l.take(a2), r.take(b2));
        lemma_aligned_split(l2, r2, le, a, b);
        assert(l2.take(a) =~= l.take(a));
        assert(r2.take(b) =~= r.take(b));
        assert(l2.skip(a) =~= l.subrange(a, a2));
        assert(r2.skip(b) =~= r.subrange(b, b2));
        assert(blocks.take(n) =~= blocks.take(n - 1).push(blocks[n - 1]));
        blocks.take(n - 1).lemma_flatten_push(blocks[n - 1]);
    }
}

/// Merging block by block is merging: the block merges of a plan, put end to
/// end, are the merge of the whole.
pub proof fn lemma_plan_merges<T>(
    l: Seq<T>,
    r: Seq<T>,
    le: spec_fn(T, T) -> bool,
    lcuts: Seq<int>,
    rcuts: Seq<int>,
)
    requires
        is_plan(l, r, le, lcuts, rcuts),
    ensures
        block_merges(l, r, le, lcuts, rcuts).flatten() == merged(l, r, le),
{
    let blocks = block_merges(l, r, le, lcuts, rcuts);
    lemma_plan_prefix(l, r, le, lcuts, rcuts, lcuts.len() - 1);
    assert(blocks.take(lcuts.len() - 1) =~= blocks);
    assert(l.take(l.len() as int) =~= l);
    assert(r.take(r.len() as int) =~= r);
}

/// Rearrangements of the pairs of blocks that `lcuts` and `rcuts` cut `l` and
/// `r` into, put end to end, are a rearrangement of `l` and `r`; here for the
/// first `n` pairs.
pub proof fn lemma_blocks_rearrange<T>(
    l: Seq<T>,
    r: Seq<T>,
    lcuts: Seq<int>,
    rcuts: Seq<int>,
    blocks: Seq<Seq<T>>,
    n: int,
)
    requires
        cuts_of(lcuts, l.len()),
        cuts_of(rcuts, r.len()),
        lcuts.len() == blocks.len() + 1,
        rcuts.len() == blocks.len() + 1,
        forall|k: int|
            0 <= k < blocks.len() ==> rearranges(
                l.subrange(lcuts[k], lcuts[k + 1]),
                r.subrange(rcuts[k], rcuts[k + 1]),
                #[trigger] blocks[k],
            ),
        0 <= n <= blocks.len(),
    ensures
        rearranges(l.take(lcuts[n]), r.take(rcuts[n]), blocks.take(n).flatten()),
    decreases n,
{
    if n == 0 {
        broadcast use vstd::seq_lib::group_to_multiset_ensures;
        assert(blocks.take(0).flatten().to_multiset() =~= l.take(0).to_multiset().add(r.take(0).to_multiset()));
    } else {
        lemma_blocks_rearrange(l, r, lcuts, rcuts, blocks, n - 1);
        let (a, b) = (lcuts[n - 1], rcuts[n - 1]);
        let (a2, b2) = (lcuts[n], rcuts[n]);
        assert(blocks.take(n) =~= blocks.take(n - 1).push(blocks[n - 1]));
        blocks.take(n - 1).lemma_flatten_push(blocks[n - 1]);
        lemma_rearranges_concat(
            l.take(a),
            r.take(b),
            blocks.take(n - 1).flatten(),
            l.subrange(a, a2),
            r.subrange(b, b2),
            blocks[n - 1],
        );
        assert(l.take(a) + l.subrange(a, a2) =~= l.take(a2));
        assert(r.take(b) + r.subrange(b, b2) =~= r.take(b2));
    }
}

} // verus!
