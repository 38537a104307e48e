//! Dividing a length into balanced parts, and cutting a slice into consecutive
//! pieces.

use vstd::prelude::*;

verus! {

/// The sum of the first `k` of `lens`: where the piece with index `k` begins.
pub open spec fn offset(lens: Seq<usize>, k: int) -> int
    decreases k,
{
    if k <= 0 {
        0
    } else {
        offset(lens, k - 1) + lens[k - 1]
    }
}

/// The sum of all of `lens`.
pub open spec fn total(lens: Seq<usize>) -> int {
    offset(lens, lens.len() as int)
}

/// The consecutive pieces of `s` whose lengths are `lens`.
pub open spec fn pieces<T>(s: Seq<T>, lens: Seq<usize>) -> Seq<Seq<T>> {
    Seq::new(lens.len(), |k: int| s.subrange(offset(lens, k), offset(lens, k + 1)))
}

/// Where the piece with index `k` begins when a slice is cut at `indices`:
/// at 0 for the first piece, else at the cut before it.
pub open spec fn cut_start(indices: Seq<usize>, k: int) -> int {
    if k <= 0 {
        0
    } else {
        indices[k - 1] as int
    }
}

/// No cut position lies before an earlier one.
pub open spec fn ascending(indices: Seq<usize>) -> bool {
    forall|i: int, j: int| 0 <= i <= j < indices.len() ==> indices[i] <= indices[j]
}

/// Offsets never decrease, and none is negative.
pub proof fn lemma_offset_ascends(lens: Seq<usize>, i: int, j: int)
    requires
        0 <= i <= j,
    ensures
        0 <= offset(lens, i) <= offset(lens, j),
    decreases j,
{
    if i < j {
        lemma_offset_ascends(lens, i, j - 1);
    } else if i > 0 {
        lemma_offset_ascends(lens, i - 1, i - 1);
    }
}

/// An offset depends only on the lengths before it.
pub proof fn lemma_offset_prefix(a: Seq<usize>, b: Seq<usize>, k: int)
    requires
        0 <= k <= a.len(),
        k <= b.len(),
        forall|i: int| 0 <= i < k ==> a[i] == b[i],
    ensures
        offset(a, k) == offset(b, k),
    decreases k,
{
    if k > 0 {
        lemma_offset_prefix(a, b, k - 1);
    }
}

/// The part of `s` that its first `k` pieces cover is `s` up to the offset of `k`.
pub proof fn lemma_pieces_cover<T>(s: Seq<T>, lens: Seq<usize>, k: int)
    requires
        0 <= k <= lens.len(),
        total(lens) <= s.len(),
    ensures
        pieces(s, lens).take(k).flatten() == s.take(offset(lens, k)),
    decreases k,
{
    let ps = pieces(s, lens);
    if k > 0 {
        lemma_pieces_cover(s, lens, k - 1);
        lemma_offset_ascends(lens, k - 1, k);
        lemma_offset_ascends(lens, k, lens.len() as int);
        assert(ps.take(k) =~= ps.take(k - 1).push(ps[k - 1]));
        ps.take(k - 1).lemma_flatten_push(ps[k - 1]);
    }
}

/// Cutting a sequence by lengths loses nothing and reorders nothing: the
/// pieces, put end to end and followed by what is left, are the sequence.
pub proof fn lemma_pieces_join<T>(s: Seq<T>, lens: Seq<usize>)
    requires
        total(lens) <= s.len(),
    ensures
        pieces(s, lens).flatten() + s.skip(total(lens)) == s,
{
    lemma_pieces_cover(s, lens, lens.len() as int);
    lemma_offset_ascends(lens, 0, lens.len() as int);
    assert(pieces(s, lens).take(lens.len() as int) =~= pieces(s, lens));
}

/// No position of the sequence falls into two pieces: a piece ends where the
/// next begins, and every later piece begins no earlier.
pub proof fn lemma_pieces_disjoint(lens: Seq<usize>, i: int, j: int)
    requires
        0 <= i < j,
    ensures
        offset(lens, i) <= offset(lens, i + 1) <= offset(lens, j),
{
    lemma_offset_ascends(lens, i + 1, j);
}

/// Divides `len` into `num_parts` lengths that differ by at most one, the
/// longer ones first.
pub fn even_division_lens(len: usize, num_parts: usize) -> (lens: Vec<usize>)
    requires
        num_parts > 0,
    ensures
        lens.len() == num_parts,
        forall|i: int|
            0 <= i < num_parts ==> #[trigger] lens[i] == len / num_parts + if i < len % num_parts {
                1int
            } else {
                0int
            },
        total(lens@) == len,
        forall|i: int, j: int|
            0 <= i < num_parts && 0 <= j < num_parts ==> #[trigger] lens[i] <= #[trigger] lens[j] + 1,
{
    let quot = len / num_parts;
    let rem = len % num_parts;
    proof {
        vstd::arithmetic::div_mod::lemma_fundamental_div_mod(len as int, num_parts as int);
        assert(rem > 0 ==> quot < len) by (nonlinear_arith)
            requires
                len == num_parts * quot + rem,
                num_parts >= 1,
                quot >= 0,
        ;
    }
    let mut lens: Vec<usize> = Vec::with_capacity(num_parts);
    let mut i: usize = 0;
    while i < num_parts
        invariant
            i <= num_parts,
            lens.len() == i,
            quot == len / num_parts,
            rem == len % num_parts,
            rem < num_parts,
            rem > 0 ==> quot < len,
            forall|k: int| 0 <= k < i ==> #[trigger] lens[k] == quot + if k < rem { 1int } else { 0int },
            offset(lens@, i as int) == i * quot + if i < rem { i as int } else { rem as int },
        decreases num_parts - i,
    {
        let ghost before = lens@;
        if i < rem {
            lens.push(quot + 1);
        } else {
            lens.push(quot);
        }
        proof {
            lemma_offset_prefix(before, lens@, i as int);
            assert((i + 1) * quot == i * quot + quot) by (nonlinear_arith);
        }
        i += 1;
    }
    lens
}

/// Cuts `slice` into consecutive pieces of the lengths `lens`, and returns
/// them in order together with what is left behind the last one.
pub fn partition_by_lens<'a, T>(slice: &'a [T], lens: Vec<usize>) -> (ret: (Vec<&'a [T]>, &'a [T]))
    requires
        total(lens@) <= slice@.len(),
    ensures
        ret.0.len() == lens.len(),
        forall|k: int| 0 <= k < lens.len() ==> #[trigger] ret.0[k]@ == pieces(slice@, lens@)[k],
        ret.1@ == slice@.skip(total(lens@)),
{
    let mut chunks: Vec<&'a [T]> = Vec::new();
    let mut rest = slice;
    let mut k: usize = 0;
    while k < lens.len()
        invariant
            k <= lens.len(),
            chunks.len() == k,
            total(lens@) <= slice@.len(),
            rest@ == slice@.skip(offset(lens@, k as int)),
            forall|i: int| 0 <= i < k ==> #[trigger] chunks[i]@ == pieces(slice@, lens@)[i],
        decreases lens.len() - k,
    {
        let len = lens[k];
        proof {
            lemma_offset_ascends(lens@, 0, k as int);
            lemma_offset_ascends(lens@, k as int + 1, lens.len() as int);
        }
        let (head, tail) = rest.split_at(len);
        chunks.push(head);
        rest = tail;
        k += 1;
    }
    (chunks, rest)
}

/// Cuts `slice` at the positions `indices`, which must not decrease: a
/// piece ends at each position, and what lies behind the last is returned
/// apart.
pub fn partition_by_indices<'a, T>(slice: &'a [T], indices: Vec<usize>) -> (ret: (
    Vec<&'a [T]>,
    &'a [T],
))
    requires
        ascending(indices@),
        forall|i: int| 0 <= i < indices.len() ==> indices[i] <= slice@.len(),
    ensures
        ret.0.len() == indices.len(),
        forall|k: int|
            0 <= k < indices.len() ==> #[trigger] ret.0[k]@ == slice@.subrange(
                cut_start(indices@, k),
                cut_start(indices@, k + 1),
            ),
        ret.1@ == slice@.skip(cut_start(indices@, indices.len() as int)),
{
    let lens = lens_between(&indices);
    partition_by_lens(slice, lens)
}

/// The lengths of the pieces that cutting at `indices` gives: the differences
/// of consecutive positions.
fn lens_between(indices: &Vec<usize>) -> (lens: Vec<usize>)
    requires
        ascending(indices@),
    ensures
        lens.len() == indices.len(),
        forall|k: int| 0 <= k <= indices.len() ==> offset(lens@, k) == cut_start(indices@, k),
{
    let mut lens: Vec<usize> = Vec::with_capacity(indices.len());
    let mut prev: usize = 0;
    let mut k: usize = 0;
    while k < indices.len()
        invariant
            k <= indices.len(),
            lens.len() == k,
            ascending(indices@),
            prev == cut_start(indices@, k as int),
            forall|i: int| 0 <= i <= k ==> offset(lens@, i) == cut_start(indices@, i),
        decreases indices.len() - k,
    {
        let curr = indices[k];
        let ghost before = lens@;
        lens.push(curr - prev);
        prev = curr;
        proof {
            assert forall|i: int| 0 <= i <= k + 1 implies offset(lens@, i) == cut_start(indices@, i) by {
                if i <= k {
                    lemma_offset_prefix(before, lens@, i);
                } else {
                    lemma_offset_prefix(before, lens@, k as int);
                }
            }
        }
        k += 1;
    }
    lens
}

/// As `partition_by_lens`, on a slice that can be written. The pieces do not
/// overlap, and whatever is written into them lands in `slice`, each piece
/// at its own place.
pub fn partition_by_lens_mut<'a, T>(slice: &'a mut [T], lens: Vec<usize>) -> (ret: (
    Vec<&'a mut [T]>,
    &'a mut [T],
))
    requires
        total(lens@) <= old(slice)@.len(),
    ensures
        ret.0.len() == lens.len(),
        forall|k: int| 0 <= k < lens.len() ==> #[trigger] ret.0[k]@ == pieces(old(slice)@, lens@)[k],
        ret.1@ == old(slice)@.skip(total(lens@)),
        final(slice)@ == Seq::new(ret.0.len() as nat, |k: int| final(ret.0[k])@).flatten() + final(ret.1)@,
{
    let mut chunks: Vec<&'a mut [T]> = Vec::new();
    let mut rest = slice;
    let mut k: usize = 0;
    while k < lens.len()
        invariant
            k <= lens.len(),
            chunks.len() == k,
            total(lens@) <= old(slice)@.len(),
            rest@ == old(slice)@.skip(offset(lens@, k as int)),
            forall|i: int| 0 <= i < k ==> #[trigger] chunks[i]@ == pieces(old(slice)@, lens@)[i],
            final(slice)@ == Seq::new(chunks.len() as nat, |i: int| final(chunks[i])@).flatten() + final(rest)@,
        decreases lens.len() - k,
    {
        let len = lens[k];
        proof {
            lemma_offset_ascends(lens@, 0, k as int);
            lemma_offset_ascends(lens@, k as int + 1, lens.len() as int);
        }
        let ghost before = Seq::new(chunks.len() as nat, |i: int| final(chunks[i])@);
        let (head, tail) = rest.split_at_mut(len);
        let ghost written = final(head)@;
        chunks.push(head);
        rest = tail;
        proof {
            let after = Seq::new(chunks.len() as nat, |i: int| final(chunks[i])@);
            assert(after =~= before.push(written));
            before.lemma_flatten_push(written);
        }
        k += 1;
    }
    (chunks, rest)
}

/// As `partition_by_indices`, on a slice that can be written.
pub fn partition_by_indices_mut<'a, T>(slice: &'a mut [T], indices: Vec<usize>) -> (ret: (
    Vec<&'a mut [T]>,
    &'a mut [T],
))
    requires
        ascending(indices@),
        forall|i: int| 0 <= i < indices.len() ==> indices[i] <= old(slice)@.len(),
    ensures
        ret.0.len() == indices.len(),
        forall|k: int|
            0 <= k < indices.len() ==> #[trigger] ret.0[k]@ == old(slice)@.subrange(
                cut_start(indices@, k),
                cut_start(indices@, k + 1),
            ),
        ret.1@ == old(slice)@.skip(cut_start(indices@, indices.len() as int)),
        final(slice)@ == Seq::new(ret.0.len() as nat, |k: int| final(ret.0[k])@).flatten() + final(ret.1)@,
{
    let lens = lens_between(&indices);
    partition_by_lens_mut(slice, lens)
}

} // verus!
