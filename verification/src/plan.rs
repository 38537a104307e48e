//! Planning the blocks of a merge: where to cut the two inputs so that the
//! pairs of blocks can be merged apart from each other.
//!
//! The shorter input is the driver: it is cut into balanced chunks. For each
//! chunk the other input is searched for the place where the items that belong
//! with the chunk end. Where the driver is the left input, that is before the
//! first right item that the chunk's last item goes before; where it is the
//! right input, before the first left item that does not go before the chunk's
//! last item. Either way items that rank alike stay in the order that a single
//! pass gives them, the left ones first, also where a cut falls between them.

use crate::cuts::{
    aligned, cuts_of, is_plan, lemma_cut_behind_left, lemma_cut_behind_right, lemma_cut_in_remainder,
};
use crate::model::{sorted_by, total_preorder};
use crate::seq::{answers_as, askable_on};
use crate::utils::{
    ascending, cut_start, even_division_lens, lemma_offset_ascends, offset, partition_by_indices,
    partition_by_lens, pieces, total,
};
use rayon::iter::{IntoParallelRefIterator, ParallelIterator};
use vstd::prelude::*;

verus! {

/// Plans the blocks of a merge of `lslice` and `rslice`, with the shorter of
/// the two as the driver. Returns the blocks of both, pair by pair, and as
/// ghosts the positions of the cuts, which make a partition plan wherever the
/// slices are sorted.
pub(crate) fn plan_blocks<'a, T, G>(lslice: &'a [T], rslice: &'a [T], num_parts: usize, left_first: &G) -> (ret: (
    Vec<&'a [T]>,
    Vec<&'a [T]>,
    Ghost<Seq<int>>,
    Ghost<Seq<int>>,
)) where T: Sync, G: Fn(&T, &T) -> bool + Sync
    requires
        num_parts > 0,
        askable_on(*left_first, lslice@, rslice@),
    ensures
        ret.0.len() == ret.1.len(),
        ret.2@.len() == ret.0.len() + 1,
        ret.3@.len() == ret.0.len() + 1,
        cuts_of(ret.2@, lslice@.len()),
        cuts_of(ret.3@, rslice@.len()),
        forall|k: int|
            0 <= k < ret.0.len() ==> #[trigger] ret.0[k]@ == lslice@.subrange(ret.2@[k], ret.2@[k + 1]),
        forall|k: int|
            0 <= k < ret.1.len() ==> #[trigger] ret.1[k]@ == rslice@.subrange(ret.3@[k], ret.3@[k + 1]),
        forall|le: spec_fn(T, T) -> bool| #[trigger]
            sorted_under(*left_first, le, lslice@, rslice@) ==> is_plan(lslice@, rslice@, le, ret.2@, ret.3@),
{
    if lslice.len() <= rslice.len() {
        let (lblocks, rblocks, Ghost(lcuts), Ghost(rcuts)) =
            plan_cuts(lslice, rslice, num_parts, left_first, true);
        proof {
            assert forall|le: spec_fn(T, T) -> bool| #[trigger]
                sorted_under(*left_first, le, lslice@, rslice@) implies is_plan(
                lslice@,
                rslice@,
                le,
                lcuts,
                rcuts,
            ) by {
                assert forall|k: int| 0 <= k < lcuts.len() implies aligned(
                    lslice@,
                    rslice@,
                    le,
                    #[trigger] lcuts[k],
                    rcuts[k],
                ) by {
                    assert(sides_sorted(*left_first, le, lslice@, rslice@, true));
                }
            }
        }
        (lblocks, rblocks, Ghost(lcuts), Ghost(rcuts))
    } else {
        let (rblocks, lblocks, Ghost(rcuts), Ghost(lcuts)) =
            plan_cuts(rslice, lslice, num_parts, left_first, false);
        proof {
            assert forall|le: spec_fn(T, T) -> bool| #[trigger]
                sorted_under(*left_first, le, lslice@, rslice@) implies is_plan(
                lslice@,
                rslice@,
                le,
                lcuts,
                rcuts,
            ) by {
                assert forall|k: int| 0 <= k < lcuts.len() implies aligned(
                    lslice@,
                    rslice@,
                    le,
                    #[trigger] lcuts[k],
                    rcuts[k],
                ) by {
                    assert(sides_sorted(*left_first, le, rslice@, lslice@, false));
                    assert(cut_aligned(rslice@, lslice@, le, false, rcuts[k], lcuts[k]));
                }
            }
        }
        (lblocks, rblocks, Ghost(lcuts), Ghost(rcuts))
    }
}

/// Plans the blocks, seen from the driver: cuts the driver into `num_parts`
/// chunks, cuts `other` where the blocks that go with them end, and cuts what
/// is left of `other` into `num_parts` more blocks, which go with nothing of
/// the driver. Returns the blocks of both sides and, as ghosts, the positions
/// of the cuts.
fn plan_cuts<'a, T, G>(
    driver: &'a [T],
    other: &'a [T],
    num_parts: usize,
    left_first: &G,
    driver_is_left: bool,
) -> (ret: (Vec<&'a [T]>, Vec<&'a [T]>, Ghost<Seq<int>>, Ghost<Seq<int>>)) where
    T: Sync,
    G: Fn(&T, &T) -> bool + Sync,

    requires
        num_parts > 0,
        if driver_is_left {
            askable_on(*left_first, driver@, other@)
        } else {
            askable_on(*left_first, other@, driver@)
        },
    ensures
        ret.0.len() == ret.1.len(),
        ret.2@.len() == ret.0.len() + 1,
        ret.3@.len() == ret.0.len() + 1,
        cuts_of(ret.2@, driver@.len()),
        cuts_of(ret.3@, other@.len()),
        forall|k: int|
            0 <= k < ret.0.len() ==> #[trigger] ret.0[k]@ == driver@.subrange(ret.2@[k], ret.2@[k + 1]),
        forall|k: int|
            0 <= k < ret.1.len() ==> #[trigger] ret.1[k]@ == other@.subrange(ret.3@[k], ret.3@[k + 1]),
        forall|le: spec_fn(T, T) -> bool, k: int|
            #![trigger sides_sorted(*left_first, le, driver@, other@, driver_is_left), ret.2@[k]]
            sides_sorted(*left_first, le, driver@, other@, driver_is_left) && 0 <= k < ret.2@.len() ==> cut_aligned(
                driver@,
                other@,
                le,
                driver_is_left,
                ret.2@[k],
                ret.3@[k],
            ),
{
    let ghost parts = num_parts as int;
    let (dchunks, dnone, bounds, Ghost(dl)) = find_bounds(driver, other, num_parts, left_first, driver_is_left);
    let ghost bs = bounds@;
    let (ochunks, remainder) = partition_by_indices(other, bounds);
    let rlens = even_division_lens(remainder.len(), num_parts);
    let ghost rl = rlens@;
    let (rparts, _) = partition_by_lens(remainder, rlens);
    let mut dblocks = dchunks;
    let mut oblocks = ochunks;
    let mut m: usize = 0;
    while m < num_parts
        invariant
            m <= num_parts,
            parts == num_parts,
            rparts.len() == num_parts,
            dblocks.len() == num_parts + m,
            oblocks.len() == num_parts + m,
            dnone@.len() == 0,
            forall|k: int| 0 <= k < parts ==> #[trigger] dblocks[k]@ == pieces(driver@, dl)[k],
            forall|k: int|
                0 <= k < parts ==> #[trigger] oblocks[k]@ == other@.subrange(
                    cut_start(bs, k),
                    cut_start(bs, k + 1),
                ),
            forall|k: int| parts <= k < parts + m ==> (#[trigger] dblocks[k]@).len() == 0,
            forall|k: int| parts <= k < parts + m ==> #[trigger] oblocks[k]@ == rparts[k - parts]@,
        decreases num_parts - m,
    {
        dblocks.push(dnone);
        oblocks.push(rparts[m]);
        m += 1;
    }
    let ghost dcuts = driver_cuts(dl, parts);
    let ghost ocuts = other_cuts(bs, rl, parts);
    proof {
        assert forall|i: int, j: int| 0 <= i <= j < dcuts.len() implies dcuts[i] <= dcuts[j] by {
            lemma_offset_ascends(dl, if i <= parts { i } else { parts }, if j <= parts { j } else { parts });
        }
        assert forall|i: int, j: int| 0 <= i <= j < ocuts.len() implies ocuts[i] <= ocuts[j] by {
            if j > parts {
                lemma_offset_ascends(rl, if i <= parts { 0 } else { i - parts }, j - parts);
            }
        }
        assert forall|k: int| 0 <= k < oblocks.len() implies #[trigger] oblocks[k]@ == other@.subrange(
            ocuts[k],
            ocuts[k + 1],
        ) by {
            if k >= parts {
                let i = k - parts;
                lemma_offset_ascends(rl, 0, i);
                lemma_offset_ascends(rl, i + 1, parts);
            }
        }
        assert forall|le: spec_fn(T, T) -> bool, k: int|
            #![trigger sides_sorted(*left_first, le, driver@, other@, driver_is_left), dcuts[k]]
            sides_sorted(*left_first, le, driver@, other@, driver_is_left) && 0 <= k < dcuts.len() implies cut_aligned(
            driver@,
            other@,
            le,
            driver_is_left,
            dcuts[k],
            ocuts[k],
        ) by {
            if k > parts {
                // a cut in the remainder lies behind the last cut of the driver
                lemma_offset_ascends(rl, k - parts, parts);
                if driver_is_left {
                    lemma_cut_in_remainder(driver@, other@, le, dcuts[parts], ocuts[parts], dcuts[k], ocuts[k]);
                } else {
                    lemma_cut_in_remainder(other@, driver@, le, ocuts[parts], dcuts[parts], ocuts[k], dcuts[k]);
                }
            }
        }
    }
    (dblocks, oblocks, Ghost(dcuts), Ghost(ocuts))
}

/// Cuts the driver into `num_parts` balanced chunks and finds for each the
/// place in `other` where the block that goes with it ends. Returns the
/// chunks, the empty rest behind them, and the places, made to rise.
fn find_bounds<'a, T, G>(
    driver: &'a [T],
    other: &'a [T],
    num_parts: usize,
    left_first: &G,
    driver_is_left: bool,
) -> (ret: (Vec<&'a [T]>, &'a [T], Vec<usize>, Ghost<Seq<usize>>)) where
    T: Sync,
    G: Fn(&T, &T) -> bool + Sync,

    requires
        num_parts > 0,
        if driver_is_left {
            askable_on(*left_first, driver@, other@)
        } else {
            askable_on(*left_first, other@, driver@)
        },
    ensures
        ret.0.len() == num_parts,
        ret.2.len() == num_parts,
        ret.3@.len() == num_parts,
        total(ret.3@) == driver@.len(),
        forall|k: int| 0 <= k < num_parts ==> #[trigger] ret.0[k]@ == pieces(driver@, ret.3@)[k],
        ret.1@.len() == 0,
        ascending(ret.2@),
        forall|k: int| 0 <= k < num_parts ==> ret.2[k] <= other@.len(),
        forall|le: spec_fn(T, T) -> bool, k: int|
            #![trigger sides_sorted(*left_first, le, driver@, other@, driver_is_left), cut_start(ret.2@, k)]
            sides_sorted(*left_first, le, driver@, other@, driver_is_left) && 0 <= k <= num_parts ==> cut_aligned(
                driver@,
                other@,
                le,
                driver_is_left,
                offset(ret.3@, k),
                cut_start(ret.2@, k),
            ),
{
    let dlens = even_division_lens(driver.len(), num_parts);
    let ghost dl = dlens@;
    let (dchunks, dnone) = partition_by_lens(driver, dlens);
    proof {
        assert forall|k: int| 0 <= k < dchunks.len() && (#[trigger] dchunks[k])@.len() > 0 implies askable_against(
            *left_first,
            dchunks[k]@.last(),
            other@,
            driver_is_left,
        ) by {
            lemma_offset_ascends(dl, 0, k);
            lemma_offset_ascends(dl, k + 1, dl.len() as int);
        }
    }
    let found = par_boundaries(&dchunks, other, left_first, driver_is_left);
    let ghost fs = found@;
    let bounds = rising(found, other.len());
    proof {
        assert forall|le: spec_fn(T, T) -> bool, k: int|
            #![trigger sides_sorted(*left_first, le, driver@, other@, driver_is_left), cut_start(bounds@, k)]
            sides_sorted(*left_first, le, driver@, other@, driver_is_left) && 0 <= k <= num_parts implies cut_aligned(
            driver@,
            other@,
            le,
            driver_is_left,
            offset(dl, k),
            cut_start(bounds@, k),
        ) by {
            lemma_bounds_aligned(*left_first, le, driver@, other@, driver_is_left, dl, fs, bounds@, k);
        }
    }
    (dchunks, dnone, bounds, Ghost(dl))
}

/// Searches `other` by bisection for the place where the block that goes with
/// `chunk` ends. Where the driver is the left side, this is the first item that
/// the chunk's last item is put before; where it is the right side, the first
/// item that is not put before the chunk's last item.
pub fn chunk_boundary<T, G>(chunk: &[T], other: &[T], left_first: &G, driver_is_left: bool) -> (b: usize) where
    G: Fn(&T, &T) -> bool,

    requires
        chunk@.len() > 0 ==> askable_against(*left_first, chunk@.last(), other@, driver_is_left),
    ensures
        ends_block(*left_first, chunk@, other@, driver_is_left, b as int),
{
    if chunk.len() == 0 {
        return 0;
    }
    let m = &chunk[chunk.len() - 1];
    let mut lo: usize = 0;
    let mut hi: usize = other.len();
    while lo < hi
        invariant
            lo <= hi <= other@.len(),
            *m == chunk@.last(),
            askable_against(*left_first, *m, other@, driver_is_left),
            lo > 0 ==> other_goes_first(*left_first, *m, other@[lo - 1], driver_is_left),
            hi < other@.len() ==> driver_goes_first(*left_first, *m, other@[hi as int], driver_is_left),
        decreases hi - lo,
    {
        let mid = lo + (hi - lo) / 2;
        let x = &other[mid];
        let behind = if driver_is_left {
            left_first(m, x)
        } else {
            !left_first(x, m)
        };
        if behind {
            hi = mid;
        } else {
            lo = mid + 1;
        }
    }
    lo
}

/// Runs `chunk_boundary` on every chunk, the chunks side by side, through
/// rayon's `par_iter`, `map` and `collect`. Taken on trust: that `collect`
/// gathers one result for each chunk, in the order of the chunks, and that
/// each is what `chunk_boundary` has returned for its chunk, so that what is
/// proved of that function, `ends_block`, holds of it.
#[verifier::external_body]
fn par_boundaries<T, G>(chunks: &Vec<&[T]>, other: &[T], left_first: &G, driver_is_left: bool) -> (found: Vec<
    usize,
>) where T: Sync, G: Fn(&T, &T) -> bool + Sync
    requires
        forall|k: int|
            0 <= k < chunks.len() && (#[trigger] chunks[k])@.len() > 0 ==> askable_against(
                *left_first,
                chunks[k]@.last(),
                other@,
                driver_is_left,
            ),
    ensures
        found.len() == chunks.len(),
        forall|k: int|
            0 <= k < chunks.len() ==> ends_block(
                *left_first,
                chunks[k]@,
                other@,
                driver_is_left,
                #[trigger] found[k] as int,
            ),
{
    chunks.par_iter().map(|chunk| chunk_boundary(chunk, other, left_first, driver_is_left)).collect()
}

/// Makes the found places rise: each is raised to the one before it where it
/// lies below, so that they can serve as cut positions.
fn rising(found: Vec<usize>, limit: usize) -> (bounds: Vec<usize>)
    requires
        forall|k: int| 0 <= k < found.len() ==> found[k] <= limit,
    ensures
        raised(found@, bounds@),
        ascending(bounds@),
        forall|k: int| 0 <= k < found.len() ==> bounds[k] <= limit,
{
    let mut bounds: Vec<usize> = Vec::with_capacity(found.len());
    let mut prev: usize = 0;
    let mut k: usize = 0;
    while k < found.len()
        invariant
            k <= found.len(),
            bounds.len() == k,
            prev == cut_start(bounds@, k as int),
            prev <= limit,
            forall|i: int| 0 <= i < found.len() ==> found[i] <= limit,
            forall|i: int| 0 <= i < k ==> bounds[i] <= limit,
            forall|i: int|
                0 <= i < k ==> #[trigger] bounds[i] == if found[i] >= cut_start(bounds@, i) {
                    found[i] as int
                } else {
                    cut_start(bounds@, i)
                },
            ascending(bounds@),
        decreases found.len() - k,
    {
        if found[k] > prev {
            prev = found[k];
        }
        bounds.push(prev);
        k += 1;
    }
    bounds
}

/// `le` is an order that `left_first` answers by and that both inputs are
/// sorted in.
pub open spec fn sorted_under<T, G: Fn(&T, &T) -> bool>(
    left_first: G,
    le: spec_fn(T, T) -> bool,
    l: Seq<T>,
    r: Seq<T>,
) -> bool {
    &&& answers_as(left_first, le, l, r)
    &&& total_preorder(le)
    &&& sorted_by(l, le)
    &&& sorted_by(r, le)
}

/// `le` is an order that `left_first` answers by and that the driver and the
/// other side are sorted in.
pub open spec fn sides_sorted<T, G: Fn(&T, &T) -> bool>(
    left_first: G,
    le: spec_fn(T, T) -> bool,
    driver: Seq<T>,
    other: Seq<T>,
    driver_is_left: bool,
) -> bool {
    if driver_is_left {
        sorted_under(left_first, le, driver, other)
    } else {
        sorted_under(left_first, le, other, driver)
    }
}

/// The cut of the driver at `d` and of the other side at `o` is aligned.
pub open spec fn cut_aligned<T>(
    driver: Seq<T>,
    other: Seq<T>,
    le: spec_fn(T, T) -> bool,
    driver_is_left: bool,
    d: int,
    o: int,
) -> bool {
    if driver_is_left {
        aligned(driver, other, le, d, o)
    } else {
        aligned(other, driver, le, o, d)
    }
}

/// `left_first` can be asked about the driver's item `m` and any item of
/// `other`, each on its own side.
pub open spec fn askable_against<T, G: Fn(&T, &T) -> bool>(
    left_first: G,
    m: T,
    other: Seq<T>,
    driver_is_left: bool,
) -> bool {
    forall|j: int|
        0 <= j < other.len() ==> if driver_is_left {
            call_requires(left_first, (&m, &#[trigger] other[j]))
        } else {
            call_requires(left_first, (&other[j], &m))
        }
}

/// Asked about the driver's item `m` and the item `x` of the other side, each
/// on its own side, `left_first` may answer that `x` goes first.
pub open spec fn other_goes_first<T, G: Fn(&T, &T) -> bool>(
    left_first: G,
    m: T,
    x: T,
    driver_is_left: bool,
) -> bool {
    if driver_is_left {
        call_ensures(left_first, (&m, &x), false)
    } else {
        call_ensures(left_first, (&x, &m), true)
    }
}

/// Asked about the driver's item `m` and the item `x` of the other side, each
/// on its own side, `left_first` may answer that `m` goes first.
pub open spec fn driver_goes_first<T, G: Fn(&T, &T) -> bool>(
    left_first: G,
    m: T,
    x: T,
    driver_is_left: bool,
) -> bool {
    if driver_is_left {
        call_ensures(left_first, (&m, &x), true)
    } else {
        call_ensures(left_first, (&x, &m), false)
    }
}

/// `b` is a place in `other` where the block that goes with a driver chunk
/// ending in `m` can end: `left_first` lets the item before `b` go before
/// `m`, and `m` before the item at `b`.
pub open spec fn is_boundary<T, G: Fn(&T, &T) -> bool>(
    left_first: G,
    m: T,
    other: Seq<T>,
    driver_is_left: bool,
    b: int,
) -> bool {
    &&& 0 <= b <= other.len()
    &&& b > 0 ==> other_goes_first(left_first, m, other[b - 1], driver_is_left)
    &&& b < other.len() ==> driver_goes_first(left_first, m, other[b], driver_is_left)
}

/// What `chunk_boundary` finds for a chunk: 0 for an empty one, else a
/// boundary for the chunk's last item.
pub open spec fn ends_block<T, G: Fn(&T, &T) -> bool>(
    left_first: G,
    chunk: Seq<T>,
    other: Seq<T>,
    driver_is_left: bool,
    b: int,
) -> bool {
    if chunk.len() == 0 {
        b == 0
    } else {
        is_boundary(left_first, chunk.last(), other, driver_is_left, b)
    }
}

/// Each of `bounds` is the place found for its chunk, or the place before it
/// where that lies higher.
pub open spec fn raised(found: Seq<usize>, bounds: Seq<usize>) -> bool {
    &&& bounds.len() == found.len()
    &&& forall|k: int|
        0 <= k < found.len() ==> #[trigger] bounds[k] == if found[k] >= cut_start(bounds, k) {
            found[k] as int
        } else {
            cut_start(bounds, k)
        }
}

/// The cut positions of the driver for a plan of `2 * parts` blocks: the ends
/// of its chunks, and then its end over again for the blocks of the remainder,
/// which take nothing from the driver.
pub open spec fn driver_cuts(dl: Seq<usize>, parts: int) -> Seq<int> {
    Seq::new((2 * parts + 1) as nat, |k: int| if k <= parts { offset(dl, k) } else { offset(dl, parts) })
}

/// The cut positions of the other side for a plan of `2 * parts` blocks: the
/// places `bounds`, and behind the last of them the ends of the pieces of the
/// remainder, whose lengths are `rl`.
pub open spec fn other_cuts(bounds: Seq<usize>, rl: Seq<usize>, parts: int) -> Seq<int> {
    Seq::new(
        (2 * parts + 1) as nat,
        |k: int|
            if k <= parts {
                cut_start(bounds, k)
            } else {
                cut_start(bounds, parts) + offset(rl, k - parts)
            },
    )
}

/// In sorted inputs the places found for the driver's chunks rise by
/// themselves, and the end of each chunk with the place found for it is an
/// aligned cut.
proof fn lemma_bounds_aligned<T, G: Fn(&T, &T) -> bool>(
    left_first: G,
    le: spec_fn(T, T) -> bool,
    driver: Seq<T>,
    other: Seq<T>,
    driver_is_left: bool,
    dl: Seq<usize>,
    found: Seq<usize>,
    bounds: Seq<usize>,
    k: int,
)
    requires
        sides_sorted(left_first, le, driver, other, driver_is_left),
        total(dl) == driver.len(),
        found.len() == dl.len(),
        raised(found, bounds),
        forall|i: int|
            0 <= i < dl.len() ==> ends_block(
                left_first,
                pieces(driver, dl)[i],
                other,
                driver_is_left,
                #[trigger] found[i] as int,
            ),
        0 <= k <= dl.len(),
    ensures
        cut_aligned(driver, other, le, driver_is_left, offset(dl, k), cut_start(bounds, k)),
        0 <= offset(dl, k) <= driver.len(),
        0 <= cut_start(bounds, k) <= other.len(),
    decreases k,
{
    lemma_offset_ascends(dl, k, dl.len() as int);
    if k > 0 {
        lemma_bounds_aligned(left_first, le, driver, other, driver_is_left, dl, found, bounds, k - 1);
        let end = offset(dl, k);
        let place = found[k - 1] as int;
        if end > offset(dl, k - 1) {
            // The chunk has a last item. What `left_first` has answered at the
            // place found is what `le` says there, and the cut before the chunk
            // is aligned: so the place lies at that cut or behind it, and is
            // the place that `bounds` holds.
            if driver_is_left {
                lemma_cut_behind_left(driver, other, le, end, place);
            } else {
                lemma_cut_behind_right(other, driver, le, place, end);
            }
        }
        // An empty chunk leaves the cut where the one before it is.
    }
}

} // verus!
