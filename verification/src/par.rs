//! Merging two sorted slices in blocks that several workers merge side by
//! side.

use crate::cuts::{block_merges, cuts_of, lemma_blocks_rearrange, lemma_plan_merges};
use crate::model::{
    clones_of, clones_of_both, lemma_clones_of_blocks, lemma_rearranges_one, merged, rearranges, sorted_by,
    total_preorder,
};
use crate::plan::{plan_blocks, sorted_under};
use crate::seq::{
    answers_as, askable_on, callable_on, computes_key, key_callable_on, le_by_key, lemma_stretches,
    merge_into, natural_le, sorted_for,
};
use crate::utils::{lemma_offset_ascends, offset, partition_by_lens_mut};
use crate::writer::{all_written, lemma_blocks_written, unwrapped, MutSliceWriter};
use rayon::iter::{IndexedParallelIterator, IntoParallelIterator, ParallelIterator};
use std::cmp::Ordering;
use vstd::prelude::*;
use vstd::std_specs::cmp::OrdSpec;

verus! {

/// Merges the sorted slices `lslice` and `rslice` into a new vector, in the
/// order of `T`, with several workers. The result is that of `seq_merge`.
pub fn par_merge<T>(lslice: &[T], rslice: &[T]) -> (out: Vec<T>) where T: Clone + Ord + Sync + Send
    requires
        lslice@.len() + rslice@.len() <= usize::MAX,
    ensures
        out@.len() == lslice@.len() + rslice@.len(),
        clones_of_both(lslice@, rslice@, out@),
        T::obeys_cmp_spec() && total_preorder(natural_le::<T>()) && sorted_by(lslice@, natural_le::<T>())
            && sorted_by(rslice@, natural_le::<T>()) ==> clones_of(
            merged(lslice@, rslice@, natural_le::<T>()),
            out@,
        ),
{
    let compare = |lhs: &T, rhs: &T| -> (o: Ordering)
        ensures
            T::obeys_cmp_spec() ==> o == lhs.cmp_spec(rhs),
        { lhs.cmp(rhs) };
    proof {
        let le = natural_le::<T>();
        if T::obeys_cmp_spec() && total_preorder(le) && sorted_by(lslice@, le) && sorted_by(rslice@, le) {
            assert(sorted_for(compare, le, lslice@, rslice@));
        }
    }
    par_merge_by(lslice, rslice, compare)
}

/// Merges the sorted slices `lslice` and `rslice` into a new vector, in the
/// order of the keys that `key` gives, with several workers. The result is
/// that of `seq_merge_by_key`.
pub fn par_merge_by_key<T, K, F>(lslice: &[T], rslice: &[T], key: F) -> (out: Vec<T>) where
    T: Clone + Sync + Send,
    F: Fn(&T) -> K + Sync,
    K: Ord,

    requires
        key_callable_on(key, lslice@),
        key_callable_on(key, rslice@),
        lslice@.len() + rslice@.len() <= usize::MAX,
    ensures
        out@.len() == lslice@.len() + rslice@.len(),
        clones_of_both(lslice@, rslice@, out@),
        forall|key_of: spec_fn(T) -> K|
            K::obeys_cmp_spec() && #[trigger] computes_key(key, key_of, lslice@) && #[trigger] computes_key(
                key,
                key_of,
                rslice@,
            ) && total_preorder(le_by_key(key_of)) && sorted_by(lslice@, le_by_key(key_of)) && sorted_by(
                rslice@,
                le_by_key(key_of),
            ) ==> clones_of(merged(lslice@, rslice@, le_by_key(key_of)), out@),
{
    let key_ref = &key;
    let compare = |lhs: &T, rhs: &T| -> (o: Ordering)
        requires
            call_requires(key_ref, (lhs,)),
            call_requires(key_ref, (rhs,)),
        ensures
            exists|ka: K, kb: K|
                {
                    &&& #[trigger] call_ensures(key_ref, (lhs,), ka)
                    &&& #[trigger] call_ensures(key_ref, (rhs,), kb)
                    &&& K::obeys_cmp_spec() ==> o == ka.cmp_spec(&kb)
                },
        {
            let ka = key_ref(lhs);
            let kb = key_ref(rhs);
            ka.cmp(&kb)
        };
    proof {
        assert forall|key_of: spec_fn(T) -> K|
            K::obeys_cmp_spec() && #[trigger] computes_key(key, key_of, lslice@) && #[trigger] computes_key(
                key,
                key_of,
                rslice@,
            ) && total_preorder(le_by_key(key_of)) && sorted_by(lslice@, le_by_key(key_of)) && sorted_by(
                rslice@,
                le_by_key(key_of),
            ) implies sorted_for(compare, le_by_key(key_of), lslice@, rslice@) by {}
    }
    par_merge_by(lslice, rslice, compare)
}

/// Merges the sorted slices `lslice` and `rslice` into a new vector, comparing
/// by `compare`, with as many workers as rayon's thread pool has. The result
/// is that of `seq_merge_by`: of two items that compare as equal the one of
/// `lslice` comes first.
pub fn par_merge_by<T, F>(lslice: &[T], rslice: &[T], compare: F) -> (out: Vec<T>) where
    T: Clone + Sync + Send,
    F: Fn(&T, &T) -> Ordering + Sync,

    requires
        callable_on(compare, lslice@, rslice@),
        lslice@.len() + rslice@.len() <= usize::MAX,
    ensures
        out@.len() == lslice@.len() + rslice@.len(),
        clones_of_both(lslice@, rslice@, out@),
        forall|le: spec_fn(T, T) -> bool| #[trigger]
            sorted_for(compare, le, lslice@, rslice@) ==> clones_of(merged(lslice@, rslice@, le), out@),
{
    let workers = worker_count();
    let num_parts = if workers == 0 {
        1
    } else {
        workers
    };
    let compare_ref = &compare;
    let left_first = |a: &T, b: &T| -> (res: bool)
        requires
            call_requires(compare_ref, (a, b)),
        ensures
            exists|o: Ordering| #[trigger]
                call_ensures(compare_ref, (a, b), o) && (res <==> o != Ordering::Greater),
        {
            match compare_ref(a, b) {
                Ordering::Greater => false,
                _ => true,
            }
        };
    proof {
        assert forall|le: spec_fn(T, T) -> bool| #[trigger]
            sorted_for(compare, le, lslice@, rslice@) implies sorted_under(
            left_first,
            le,
            lslice@,
            rslice@,
        ) by {}
    }
    par_merge_in_parts(lslice, rslice, num_parts, &left_first)
}

/// The number of threads of the thread pool that rayon runs the blocks on, as
/// `rayon::current_num_threads` tells it. Nothing is claimed of the number;
/// the caller makes do with whatever it is.
#[verifier::external_body]
fn worker_count() -> usize {
    rayon::current_num_threads()
}

/// Merges the sorted slices `lslice` and `rslice` into a new vector, in blocks
/// that are merged side by side. The shorter slice is cut into `num_parts`
/// balanced chunks; the longer one is cut where the items that go with each
/// chunk end, and what is left of it into `num_parts` more pieces. Where the
/// slices are sorted, the result is the merge that a single pass gives: of two
/// items that rank alike the one of `lslice` comes first, also across the
/// cuts.
pub fn par_merge_in_parts<T, G>(lslice: &[T], rslice: &[T], num_parts: usize, left_first: &G) -> (out: Vec<
    T,
>) where T: Clone + Send + Sync, G: Fn(&T, &T) -> bool + Sync
    requires
        num_parts > 0,
        askable_on(*left_first, lslice@, rslice@),
        lslice@.len() + rslice@.len() <= usize::MAX,
    ensures
        out@.len() == lslice@.len() + rslice@.len(),
        clones_of_both(lslice@, rslice@, out@),
        forall|le: spec_fn(T, T) -> bool| #[trigger]
            sorted_under(*left_first, le, lslice@, rslice@) ==> clones_of(merged(lslice@, rslice@, le), out@),
{
    if lslice.len() == 0 {
        let out = clone_all(rslice);
        proof {
            assert(lslice@ =~= Seq::<T>::empty());
            lemma_rearranges_one(rslice@);
        }
        return out;
    }
    if rslice.len() == 0 {
        let out = clone_all(lslice);
        proof {
            assert(rslice@ =~= Seq::<T>::empty());
            lemma_rearranges_one(lslice@);
        }
        return out;
    }
    let (lblocks, rblocks, Ghost(lcuts), Ghost(rcuts)) = plan_blocks(lslice, rslice, num_parts, left_first);
    let ghost ls = Seq::new(lblocks.len() as nat, |k: int| lblocks[k]@);
    let ghost rs = Seq::new(rblocks.len() as nat, |k: int| rblocks[k]@);
    let tlens = block_lens(&lblocks, &rblocks);
    let ghost tl = tlens@;
    proof {
        // the blocks of the output take up all of it
        lemma_block_offsets(tl, lcuts, rcuts, tl.len() as int);
    }
    let mut buf: Vec<Option<T>> = empty_slots(lslice.len() + rslice.len());
    let (tblocks, trest) = partition_by_lens_mut(buf.as_mut_slice(), tlens);
    let ghost outs = Seq::new(tblocks.len() as nat, |k: int| final(tblocks[k])@);
    proof {
        assert forall|k: int| 0 <= k < tblocks.len() implies (#[trigger] tblocks[k]@).len() == lblocks[k]@.len()
            + rblocks[k]@.len() by {
            lemma_offset_ascends(tl, 0, k);
            lemma_offset_ascends(tl, k + 1, tl.len() as int);
        }
    }
    par_merge_blocks(tblocks, lblocks, rblocks, left_first);
    proof {
        // every block is written, so the buffer is
        assert forall|k: int| 0 <= k < outs.len() implies all_written(#[trigger] outs[k]) && outs[k].len()
            == tl[k] by {
            assert(block_filled(outs[k], ls[k], rs[k], *left_first));
        }
        lemma_blocks_written(outs);
        lemma_blocks_len(outs, tl, tl.len() as int);
        assert(outs.take(tl.len() as int) =~= outs);
        let items = outs.map_values(|b: Seq<Option<T>>| unwrapped(b));
        // each block holds clones of a rearrangement of its inputs, so the
        // buffer holds clones of a rearrangement of the whole
        let sources = Seq::new(
            outs.len(),
            |k: int| choose|m: Seq<T>| #[trigger] rearranges(ls[k], rs[k], m) && clones_of(m, items[k]),
        );
        lemma_blocks_rearrange(lslice@, rslice@, lcuts, rcuts, sources, sources.len() as int);
        lemma_clones_of_blocks(sources, items);
        assert(sources.take(sources.len() as int) =~= sources);
        assert(lslice@.take(lslice@.len() as int) =~= lslice@);
        assert(rslice@.take(rslice@.len() as int) =~= rslice@);
        // where the inputs are sorted the cuts make a plan, and the buffer
        // holds clones of the merges of its blocks
        assert forall|le: spec_fn(T, T) -> bool| #[trigger]
            sorted_under(*left_first, le, lslice@, rslice@) implies clones_of(
            merged(lslice@, rslice@, le),
            unwrapped(buf@),
        ) by {
            let models = block_merges(lslice@, rslice@, le, lcuts, rcuts);
            lemma_plan_merges(lslice@, rslice@, le, lcuts, rcuts);
            assert forall|k: int| 0 <= k < models.len() implies clones_of(#[trigger] models[k], items[k]) by {
                lemma_stretches(*left_first, lslice@, rslice@, lcuts[k], lcuts[k + 1], rcuts[k], rcuts[k + 1]);
            }
            lemma_clones_of_blocks(models, items);
        }
    }
    take_all(buf)
}

/// What `merge_block` leaves in a block of the output: every slot written,
/// and in them, clone for clone, the merge of the two input blocks.
pub open spec fn block_filled<T: Clone, G: Fn(&T, &T) -> bool>(
    slots: Seq<Option<T>>,
    l: Seq<T>,
    r: Seq<T>,
    left_first: G,
) -> bool {
    &&& slots.len() == l.len() + r.len()
    &&& all_written(slots)
    &&& clones_of_both(l, r, unwrapped(slots))
    &&& forall|le: spec_fn(T, T) -> bool| #[trigger]
        answers_as(left_first, le, l, r) ==> clones_of(merged(l, r, le), unwrapped(slots))
}

/// Merges `lblock` and `rblock` into the block `tblock` of the output, which
/// has a slot for each of their items.
pub fn merge_block<T, G>(tblock: &mut [Option<T>], lblock: &[T], rblock: &[T], left_first: &G) where
    T: Clone,
    G: Fn(&T, &T) -> bool,

    requires
        old(tblock)@.len() == lblock@.len() + rblock@.len(),
        askable_on(*left_first, lblock@, rblock@),
    ensures
        block_filled(final(tblock)@, lblock@, rblock@, *left_first),
{
    let mut writer = MutSliceWriter::new(tblock);
    merge_into(lblock, rblock, &mut writer, left_first);
    writer.finish();
}

/// Runs `merge_block` on every block of the output with its two input blocks,
/// the blocks side by side, through rayon's `into_par_iter`, `zip` and
/// `for_each`. Taken on trust: that `zip` pairs the blocks by their index,
/// and that `for_each` has run `merge_block` on every triple when it returns,
/// so that what is proved of that function, `block_filled`, holds of every
/// block of the output.
#[verifier::external_body]
fn par_merge_blocks<T, G>(
    tblocks: Vec<&mut [Option<T>]>,
    lblocks: Vec<&[T]>,
    rblocks: Vec<&[T]>,
    left_first: &G,
) where
    T: Clone + Send + Sync,
    G: Fn(&T, &T) -> bool + Sync,

    requires
        tblocks.len() == lblocks.len(),
        tblocks.len() == rblocks.len(),
        forall|k: int|
            0 <= k < tblocks.len() ==> (#[trigger] tblocks[k]@).len() == lblocks[k]@.len() + rblocks[k]@.len(),
        forall|k: int|
            0 <= k < lblocks.len() ==> askable_on(*left_first, (#[trigger] lblocks[k])@, rblocks[k]@),
    ensures
        forall|k: int|
            0 <= k < tblocks.len() ==> block_filled(
                final(tblocks[k])@,
                #[trigger] lblocks[k]@,
                rblocks[k]@,
                *left_first,
            ),
{
    tblocks.into_par_iter().zip(lblocks).zip(rblocks).for_each(
        |((tblock, lblock), rblock)| merge_block(tblock, lblock, rblock, left_first),
    );
}

/// The lengths of the blocks of the output: each takes the items of its two
/// input blocks.
fn block_lens<T>(lblocks: &Vec<&[T]>, rblocks: &Vec<&[T]>) -> (tlens: Vec<usize>)
    requires
        lblocks.len() == rblocks.len(),
        forall|k: int|
            0 <= k < lblocks.len() ==> (#[trigger] lblocks[k])@.len() + rblocks[k]@.len() <= usize::MAX,
    ensures
        tlens.len() == lblocks.len(),
        forall|k: int| 0 <= k < lblocks.len() ==> #[trigger] tlens[k] == lblocks[k]@.len() + rblocks[k]@.len(),
{
    let mut tlens: Vec<usize> = Vec::with_capacity(lblocks.len());
    let mut k: usize = 0;
    while k < lblocks.len()
        invariant
            k <= lblocks.len(),
            lblocks.len() == rblocks.len(),
            tlens.len() == k,
            forall|i: int|
                0 <= i < lblocks.len() ==> (#[trigger] lblocks[i])@.len() + rblocks[i]@.len() <= usize::MAX,
            forall|i: int| 0 <= i < k ==> #[trigger] tlens[i] == lblocks[i]@.len() + rblocks[i]@.len(),
        decreases lblocks.len() - k,
    {
        tlens.push(lblocks[k].len() + rblocks[k].len());
        k += 1;
    }
    tlens
}

/// A buffer of `n` slots, none of them written.
fn empty_slots<T>(n: usize) -> (buf: Vec<Option<T>>)
    ensures
        buf.len() == n,
        forall|i: int| 0 <= i < n ==> (#[trigger] buf[i]).is_none(),
{
    let mut buf: Vec<Option<T>> = Vec::with_capacity(n);
    let mut i: usize = 0;
    while i < n
        invariant
            i <= n,
            buf.len() == i,
            forall|k: int| 0 <= k < i ==> (#[trigger] buf[k]).is_none(),
        decreases n - i,
    {
        buf.push(None);
        i += 1;
    }
    buf
}

/// Takes the items out of a buffer whose slots are all written.
fn take_all<T>(buf: Vec<Option<T>>) -> (out: Vec<T>)
    requires
        all_written(buf@),
    ensures
        out@ == unwrapped(buf@),
{
    let ghost slots = buf@;
    let mut out: Vec<T> = Vec::with_capacity(buf.len());
    for slot in it: buf
        invariant
            it.seq() == slots,
            all_written(slots),
            out@ == unwrapped(slots.take(it.index())),
    {
        out.push(slot.unwrap());
    }
    out
}

/// A clone of every item of `s`, in order.
fn clone_all<T: Clone>(s: &[T]) -> (out: Vec<T>)
    ensures
        clones_of(s@, out@),
{
    let mut out: Vec<T> = Vec::with_capacity(s.len());
    out.extend_from_slice(s);
    out
}

/// A block of the output begins where its two input blocks begin, taken
/// together.
proof fn lemma_block_offsets(tlens: Seq<usize>, lcuts: Seq<int>, rcuts: Seq<int>, k: int)
    requires
        cuts_of(lcuts, lcuts.last() as nat),
        cuts_of(rcuts, rcuts.last() as nat),
        lcuts.len() == tlens.len() + 1,
        rcuts.len() == tlens.len() + 1,
        forall|i: int|
            0 <= i < tlens.len() ==> #[trigger] tlens[i] == (lcuts[i + 1] - lcuts[i]) + (rcuts[i + 1]
                - rcuts[i]),
        0 <= k <= tlens.len(),
    ensures
        offset(tlens, k) == lcuts[k] + rcuts[k],
    decreases k,
{
    if k > 0 {
        lemma_block_offsets(tlens, lcuts, rcuts, k - 1);
    }
}

/// Blocks of the lengths `lens`, put end to end, have the length that `lens`
/// add up to.
proof fn lemma_blocks_len<T>(blocks: Seq<Seq<T>>, lens: Seq<usize>, k: int)
    requires
        blocks.len() == lens.len(),
        forall|i: int| 0 <= i < blocks.len() ==> (#[trigger] blocks[i]).len() == lens[i],
        0 <= k <= blocks.len(),
    ensures
        blocks.take(k).flatten().len() == offset(lens, k),
    decreases k,
{
    if k > 0 {
        lemma_blocks_len(blocks, lens, k - 1);
        assert(blocks.take(k) =~= blocks.take(k - 1).push(blocks[k - 1]));
        blocks.take(k - 1).lemma_flatten_push(blocks[k - 1]);
    }
}

} // verus!
