//! The items that share one hypertile.
use vstd::prelude::*;

verus! {

/// Those of the first `n` items whose flag is `wanted`, in order.
pub open spec fn picked<T>(items: Seq<T>, flags: Seq<bool>, wanted: bool, n: nat) -> Seq<T>
    decreases n,
{
    if n == 0 {
        seq![]
    } else {
        let before = picked(items, flags, wanted, (n - 1) as nat);
        if flags[n - 1] == wanted {
            before.push(items[n - 1])
        } else {
            before
        }
    }
}

/// Generic ordered list of items sharing a single hypertile. A hypertile can
/// hold more than one item. Generic so other reference-type submaps can reuse it.
#[derive(Debug)]
pub struct HypertileList<T> {
    pub items: Vec<T>,
}

impl<T> View for HypertileList<T> {
    type V = Seq<T>;

    open spec fn view(&self) -> Seq<T> {
        self.items@
    }
}

impl<T> Default for HypertileList<T> {
    fn default() -> (list: Self)
        ensures
            list@ == Seq::<T>::empty(),
    {
        HypertileList { items: Vec::new() }
    }
}

impl<T> HypertileList<T> {
    pub fn new() -> (list: Self)
        ensures
            list@ == Seq::<T>::empty(),
    {
        HypertileList { items: Vec::new() }
    }

    pub fn is_empty(&self) -> (empty: bool)
        ensures
            empty == (self@.len() == 0),
    {
        self.items.len() == 0
    }

    pub fn len(&self) -> (n: usize)
        ensures
            n == self@.len(),
    {
        self.items.len()
    }

    pub fn push(&mut self, item: T)
        ensures
            final(self)@ == old(self)@.push(item),
    {
        self.items.push(item);
    }

    /// All items on this hypertile (empty slice if none).
    pub fn items(&self) -> (items: &[T])
        ensures
            items@ == self@,
    {
        self.items.as_slice()
    }

    /// Removes and returns every item matching `predicate`, preserving order of the rest.
    pub fn remove_matching<F: Fn(&T) -> bool>(&mut self, predicate: F) -> (removed: Vec<T>)
        requires
            forall|i: int|
                0 <= i < old(self)@.len() ==> call_requires(
                    predicate,
                    (&(#[trigger] old(self)@[i]),),
                ),
        ensures
            exists|flags: Seq<bool>|
                {
                    &&& flags.len() == old(self)@.len()
                    &&& forall|i: int|
                        0 <= i < flags.len() ==> call_ensures(
                            predicate,
                            (&old(self)@[i],),
                            #[trigger] flags[i],
                        )
                    &&& final(self)@ == #[trigger] picked(
                        old(self)@,
                        flags,
                        false,
                        old(self)@.len(),
                    )
                    &&& removed@ == picked(old(self)@, flags, true, old(self)@.len())
                },
    {
        let ghost all = self@;
        let ghost mut flags: Seq<bool> = seq![];
        let mut removed: Vec<T> = Vec::new();
        let mut i: usize = 0;
        let ghost mut seen: int = 0;
        while i < self.items.len()
            invariant
                0 <= seen <= all.len(),
                flags.len() == seen,
                i <= self.items@.len(),
                self.items@.len() - i == all.len() - seen,
                self.items@.take(i as int) == picked(all, flags, false, seen as nat),
                self.items@.skip(i as int) == all.skip(seen),
                removed@ == picked(all, flags, true, seen as nat),
                forall|j: int|
                    0 <= j < all.len() ==> call_requires(predicate, (&(#[trigger] all[j]),)),
                forall|j: int|
                    0 <= j < seen ==> call_ensures(predicate, (&all[j],), #[trigger] flags[j]),
            decreases all.len() - seen,
        {
            let ghost before = self.items@;
            proof {
                assert(before.skip(i as int)[0] == before[i as int]);
                assert(all.skip(seen)[0] == all[seen]);
                assert(before[i as int] == all[seen]);
                assert(before.skip(i as int).len() == all.skip(seen).len());
            }
            let hit: bool = predicate(&self.items[i]);
            proof {
                let longer = flags.push(hit);
                lemma_picked_prefix(all, flags, longer, false, seen as nat);
                lemma_picked_prefix(all, flags, longer, true, seen as nat);
                flags = longer;
                seen = seen + 1;
            }
            if hit {
                let item = self.items.remove(i);
                removed.push(item);
                proof {
                    assert(self.items@.take(i as int) =~= before.take(i as int));
                    assert(self.items@.skip(i as int) =~= before.skip(i as int).skip(1));
                    assert(all.skip(seen) =~= all.skip(seen - 1).skip(1));
                }
            } else {
                i += 1;
                proof {
                    assert(self.items@.take(i as int) =~= before.take(i as int - 1).push(
                        all[seen - 1],
                    ));
                    assert(self.items@.skip(i as int) =~= before.skip(i as int - 1).skip(1));
                    assert(all.skip(seen) =~= all.skip(seen - 1).skip(1));
                }
            }
        }
        proof {
            assert(self.items@.skip(i as int).len() == 0);
            assert(seen == all.len());
            assert(self.items@.take(i as int) =~= self.items@);
            assert(self@ == picked(all, flags, false, all.len()));
        }
        removed
    }
}

/// What is picked depends only on the flags looked at.
pub proof fn lemma_picked_prefix<T>(
    items: Seq<T>,
    a: Seq<bool>,
    b: Seq<bool>,
    wanted: bool,
    n: nat,
)
    requires
        n <= a.len(),
        n <= b.len(),
        forall|i: int| 0 <= i < n ==> a[i] == b[i],
    ensures
        picked(items, a, wanted, n) == picked(items, b, wanted, n),
    decreases n,
{
    if n > 0 {
        lemma_picked_prefix(items, a, b, wanted, (n - 1) as nat);
    }
}

} // verus!
