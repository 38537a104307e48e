//! Where merged items go: anything that takes items one after another, and in
//! particular a writer that fills a borrowed region slot by slot.

use vstd::prelude::*;

verus! {

/// A destination that takes items one after another.
pub trait Sink<T> {
    /// The items taken so far, in the order in which they came.
    spec fn contents(&self) -> Seq<T>;

    /// How many more items fit; `None` where there is no limit.
    spec fn room(&self) -> Option<nat>;

    /// The borrowed region that the items are written into, where the sink
    /// is the writer of such a region; `None` where the sink owns what it
    /// holds. Code that knows a sink only by this trait can say by it that the
    /// writer it was given still writes into the same region.
    spec fn backing(&self) -> Option<&mut [Option<T>]>;

    /// Takes `item` as the next one. The sink goes on writing into the region
    /// it started with, if it writes into one.
    fn emit(&mut self, item: T)
        requires
            old(self).room() != Some(0nat),
        ensures
            final(self).contents() == old(self).contents().push(item),
            final(self).room() == match old(self).room() {
                Some(n) => Some((n - 1) as nat),
                None => None,
            },
            match (old(self).backing(), final(self).backing()) {
                (Some(a), Some(b)) => final(a)@ == final(b)@,
                (None, None) => true,
                _ => false,
            },
    ;
}

/// `after` begins with all of `before`.
pub open spec fn extends<T>(before: Seq<T>, after: Seq<T>) -> bool {
    &&& before.len() <= after.len()
    &&& after.take(before.len() as int) == before
}

/// What `after` holds behind the items of `before`.
pub open spec fn added<T>(before: Seq<T>, after: Seq<T>) -> Seq<T> {
    after.skip(before.len() as int)
}

/// The room that is left of `room` once `taken` more items are in.
pub open spec fn room_after(room: Option<nat>, taken: nat) -> Option<nat> {
    match room {
        Some(n) => Some((n - taken) as nat),
        None => None,
    }
}

/// One more item behind `mid` is one more item added to `before`.
pub proof fn lemma_extends_push<T>(before: Seq<T>, mid: Seq<T>, item: T)
    requires
        extends(before, mid),
    ensures
        extends(before, mid.push(item)),
        added(before, mid.push(item)) == added(before, mid).push(item),
{
    assert(mid.push(item).take(before.len() as int) =~= mid.take(before.len() as int));
}

/// Nothing is added to a sequence that stays as it is.
pub proof fn lemma_extends_self<T>(before: Seq<T>)
    ensures
        extends(before, before),
        added(before, before) == Seq::<T>::empty(),
{
    assert(before.take(before.len() as int) =~= before);
}

impl<T> Sink<T> for Vec<T> {
    open spec fn contents(&self) -> Seq<T> {
        self@
    }

    open spec fn room(&self) -> Option<nat> {
        None
    }

    open spec fn backing(&self) -> Option<&mut [Option<T>]> {
        None
    }

    fn emit(&mut self, item: T) {
        self.push(item);
    }
}

/// The slots of a region whose first items are `items`: `Some` of each.
pub open spec fn filled<T>(items: Seq<T>) -> Seq<Option<T>> {
    items.map_values(|x: T| Some(x))
}

/// What the slots `slots` hold, where each holds something.
pub open spec fn unwrapped<T>(slots: Seq<Option<T>>) -> Seq<T> {
    slots.map_values(|s: Option<T>| s.unwrap())
}

/// Every slot of `slots` holds something.
pub open spec fn all_written<T>(slots: Seq<Option<T>>) -> bool {
    forall|i: int| 0 <= i < slots.len() ==> (#[trigger] slots[i]).is_some()
}

/// Blocks of slots that are all written make, put end to end, a region that is
/// all written, and hold together the items that they hold one by one.
pub proof fn lemma_blocks_written<T>(blocks: Seq<Seq<Option<T>>>)
    requires
        forall|k: int| 0 <= k < blocks.len() ==> all_written(#[trigger] blocks[k]),
    ensures
        all_written(blocks.flatten()),
        unwrapped(blocks.flatten()) == blocks.map_values(|b: Seq<Option<T>>| unwrapped(b)).flatten(),
    decreases blocks.len(),
{
    let items = blocks.map_values(|b: Seq<Option<T>>| unwrapped(b));
    if blocks.len() == 0 {
    } else {
        let init = blocks.drop_last();
        lemma_blocks_written(init);
        assert(blocks =~= init.push(blocks.last()));
        init.lemma_flatten_push(blocks.last());
        let init_items = init.map_values(|b: Seq<Option<T>>| unwrapped(b));
        assert(items =~= init_items.push(unwrapped(blocks.last())));
        init_items.lemma_flatten_push(unwrapped(blocks.last()));
    }
}

/// Writes items into a borrowed region of slots, front to back, each slot
/// once. It never reads a slot, and takes no more items than the region has
/// slots.
pub struct MutSliceWriter<'a, T> {
    slots: &'a mut [Option<T>],
    written: usize,
}

impl<'a, T> MutSliceWriter<'a, T> {
    /// What the slots of the region hold now.
    pub closed spec fn region(&self) -> Seq<Option<T>> {
        self.slots@
    }

    #[verifier::type_invariant]
    spec fn well_formed(&self) -> bool {
        &&& self.written <= self.slots@.len()
        &&& forall|i: int| 0 <= i < self.written ==> (#[trigger] self.slots@[i]).is_some()
    }

    /// A writer for `slice` that has written nothing yet.
    pub fn new(slice: &'a mut [Option<T>]) -> (w: Self)
        ensures
            w.contents() == Seq::<T>::empty(),
            w.room() == Some(old(slice)@.len()),
            w.region() == old(slice)@,
            w.backing() matches Some(b) && final(b)@ == final(slice)@,
    {
        let w = MutSliceWriter { slots: slice, written: 0 };
        w
    }

    /// Writes `items` into the next slots, in order. Once the writer has
    /// taken as many items as the region has slots, every slot is written.
    pub fn extend(&mut self, items: Vec<T>)
        requires
            old(self).room() matches Some(n) && items.len() <= n,
        ensures
            final(self).contents() == old(self).contents() + items@,
            final(self).room() == Some((old(self).room().unwrap() - items.len()) as nat),
            final(self).region() == filled(final(self).contents()) + old(self).region().skip(
                final(self).contents().len() as int,
            ),
            final(self).room() == Some(0nat) ==> final(self).region() == filled(final(self).contents()),
            final(self).backing() matches Some(b) && old(self).backing() matches Some(a) && final(a)@
                == final(b)@,
    {
        proof {
            use_type_invariant(&*self);
        }
        let ghost all = items@;
        for item in it: items
            invariant
                it.seq() == all,
                old(self).region().len() == old(self).contents().len() + old(self).room().unwrap(),
                self.region().len() == old(self).region().len(),
                old(self).room() matches Some(n) && all.len() <= n,
                self.room() == Some((old(self).room().unwrap() - it.index()) as nat),
                self.contents() == old(self).contents() + all.take(it.index()),
                self.region() == filled(self.contents()) + old(self).region().skip(
                    self.contents().len() as int,
                ),
                self.backing() matches Some(b) && old(self).backing() matches Some(a) && final(a)@ == final(b)@,
        {
            proof {
                use_type_invariant(&*self);
            }
            self.emit(item);
            proof {
                use_type_invariant(&*self);
            }
        }
    }

    /// Ends the writing and says how many items were written. The region
    /// that was lent to the writer then holds these items in its first slots,
    /// and behind them what it held before; where the writer has no room left,
    /// every slot of the region is written.
    pub fn finish(self) -> (n: usize)
        ensures
            n == self.contents().len(),
            n <= self.region().len(),
            self.room() == Some((self.region().len() - n) as nat),
            self.region().take(n as int) == filled(self.contents()),
            self.room() == Some(0nat) ==> self.region() == filled(self.contents()),
            self.backing() matches Some(b) && final(b)@ == self.region(),
    {
        proof {
            use_type_invariant(&self);
        }
        self.written
    }
}

impl<'a, T> Sink<T> for MutSliceWriter<'a, T> {
    closed spec fn contents(&self) -> Seq<T> {
        Seq::new(self.written as nat, |i: int| self.slots@[i].unwrap())
    }

    closed spec fn room(&self) -> Option<nat> {
        Some((self.slots@.len() - self.written) as nat)
    }

    closed spec fn backing(&self) -> Option<&mut [Option<T>]> {
        Some(self.slots)
    }

    fn emit(&mut self, item: T)
        ensures
            final(self).region() == old(self).region().update(old(self).contents().len() as int, Some(item)),
    {
        proof {
            use_type_invariant(&*self);
        }
        let k = self.written;
        self.slots[k] = Some(item);
        self.written = k + 1;
    }
}

} // verus!
