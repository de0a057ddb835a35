//! A map that remembers the order in which its keys came.
use std::collections::HashMap;

use vstd::prelude::*;

verus! {

broadcast use vstd::std_specs::hash::group_hash_axioms;

/// A key that a number stands for.
pub trait TableKey: Copy + Sized {
    spec fn number(self) -> u128;

    fn table_number(&self) -> (n: u128)
        ensures
            n == self.number(),
    ;

    fn same_key(&self, other: &Self) -> (same: bool)
        ensures
            same == (*self == *other),
    ;

    /// No number stands for two keys.
    proof fn one_number_one_key(a: Self, b: Self)
        requires
            a.number() == b.number(),
        ensures
            a == b,
    ;
}

impl TableKey for u64 {
    open spec fn number(self) -> u128 {
        self as u128
    }

    fn table_number(&self) -> (n: u128) {
        *self as u128
    }

    fn same_key(&self, other: &Self) -> (same: bool) {
        *self == *other
    }

    proof fn one_number_one_key(a: Self, b: Self) {
    }
}

/// Values by key, and the keys in the order in which they came.
#[derive(Debug)]
pub struct Table<K, V> {
    slots: HashMap<u128, V>,
    order: Vec<K>,
}

impl<K: TableKey, V> View for Table<K, V> {
    type V = Map<K, V>;

    closed spec fn view(&self) -> Map<K, V> {
        Map::new(
            |k: K| self.slots@.contains_key(k.number()),
            |k: K| self.slots@[k.number()],
        )
    }
}

impl<K: TableKey, V> Table<K, V> {
    /// Slots and keys agree.
    pub closed spec fn wf(self) -> bool {
        &&& self.order@.no_duplicates()
        &&& forall|i: int|
            0 <= i < self.order@.len() ==> self.slots@.contains_key(
                (#[trigger] self.order@[i]).number(),
            )
        &&& forall|k: K| #[trigger]
            self.slots@.contains_key(k.number()) ==> self.order@.contains(k)
    }

    /// The keys in the order in which they came.
    pub closed spec fn keys_in_order(self) -> Seq<K> {
        self.order@
    }

    /// The list of keys names every key of the map once.
    pub proof fn keys_are_the_domain(self)
        requires
            self.wf(),
        ensures
            self.keys_in_order().no_duplicates(),
            forall|k: K| self.keys_in_order().contains(k) <==> #[trigger] self@.contains_key(k),
    {
        assert forall|k: K| self.keys_in_order().contains(k) implies #[trigger] self@.contains_key(
            k,
        ) by {
            let i = choose|i: int| 0 <= i < self.order@.len() && self.order@[i] == k;
            assert(self.slots@.contains_key(self.order@[i].number()));
        }
    }

    pub fn new() -> (table: Self)
        ensures
            table.wf(),
            table@ == Map::<K, V>::empty(),
            table.keys_in_order() == Seq::<K>::empty(),
    {
        let table = Table { slots: HashMap::new(), order: Vec::new() };
        assert(table@ =~= Map::<K, V>::empty());
        table
    }

    pub fn contains(&self, k: K) -> (held: bool)
        ensures
            held == self@.contains_key(k),
    {
        let n: u128 = k.table_number();
        self.slots.contains_key(&n)
    }

    pub fn get(&self, k: K) -> (value: Option<&V>)
        ensures
            match value {
                Some(v) => self@.contains_key(k) && *v == self@[k],
                None => !self@.contains_key(k),
            },
    {
        let n: u128 = k.table_number();
        self.slots.get(&n)
    }

    /// The keys in the order in which they came.
    pub fn keys(&self) -> (keys: &Vec<K>)
        ensures
            keys@ == self.keys_in_order(),
    {
        &self.order
    }

    /// Access to the value of a key, which is `blank` for a new one.
    pub fn slot(&mut self, k: K, blank: V) -> (value: &mut V)
        requires
            old(self).wf(),
        ensures
            *value == if old(self)@.contains_key(k) {
                old(self)@[k]
            } else {
                blank
            },
            final(self).wf(),
            final(self)@ == old(self)@.insert(k, *final(value)),
            final(self).keys_in_order() == if old(self)@.contains_key(k) {
                old(self).keys_in_order()
            } else {
                old(self).keys_in_order().push(k)
            },
    {
        let ghost before = *self;
        let n: u128 = k.table_number();
        if !self.contains(k) {
            self.order.push(k);
            proof {
                assert(self.order@[before.order@.len() as int] == k);
                assert forall|c: K| before.order@.contains(c) implies self.order@.contains(c) by {
                    let i = choose|i: int| 0 <= i < before.order@.len() && before.order@[i] == c;
                    assert(self.order@[i] == c);
                }
            }
        }
        proof {
            assert forall|c: K| #[trigger] c.number() == n implies c == k by {
                K::one_number_one_key(c, k);
            }
            lemma_inserted(before, k);
        }
        self.slots.entry(n).or_insert(blank)
    }

    /// Takes a key and its value out.
    pub fn remove(&mut self, k: K) -> (value: Option<V>)
        requires
            old(self).wf(),
        ensures
            final(self).wf(),
            final(self)@ == old(self)@.remove(k),
            final(self).keys_in_order() == without_key(old(self).keys_in_order(), k),
            match value {
                Some(v) => old(self)@.contains_key(k) && v == old(self)@[k],
                None => !old(self)@.contains_key(k),
            },
    {
        let ghost before = *self;
        let n: u128 = k.table_number();
        let value = self.slots.remove(&n);
        let mut kept: Vec<K> = Vec::with_capacity(self.order.len());
        let mut i: usize = 0;
        while i < self.order.len()
            invariant
                i <= self.order@.len(),
                self.order@ == before.order@,
                kept@ == without_key(self.order@.take(i as int), k),
            decreases self.order@.len() - i,
        {
            assert(self.order@.take(i + 1).drop_last() =~= self.order@.take(i as int));
            let key: K = self.order[i];
            if !key.same_key(&k) {
                kept.push(key);
            }
            i += 1;
        }
        assert(self.order@.take(i as int) =~= self.order@);
        self.order = kept;
        proof {
            lemma_without_key(before.order@, k);
            assert forall|c: K| #[trigger] c.number() == n implies c == k by {
                K::one_number_one_key(c, k);
            }
            assert(self@ =~= before@.remove(k));
            assert forall|j: int| 0 <= j < self.order@.len() implies self.slots@.contains_key(
                (#[trigger] self.order@[j]).number(),
            ) by {
                let c = self.order@[j];
                assert(self.order@.contains(c));
                assert(before.order@.contains(c) && c != k);
                let m = choose|m: int| 0 <= m < before.order@.len() && before.order@[m] == c;
                assert(before.slots@.contains_key(before.order@[m].number()));
            }
            assert forall|c: K| #[trigger] self.slots@.contains_key(c.number()) implies self.order@.contains(
                c,
            ) by {
                assert(before.slots@.contains_key(c.number()));
            }
        }
        value
    }
}

/// A key list without one key.
pub open spec fn without_key<K>(list: Seq<K>, k: K) -> Seq<K>
    decreases list.len(),
{
    if list.len() == 0 {
        list
    } else {
        let rest = without_key(list.drop_last(), k);
        if list.last() == k {
            rest
        } else {
            rest.push(list.last())
        }
    }
}

/// What is left of a key list has all its other keys, each as often as before.
pub proof fn lemma_without_key<K>(list: Seq<K>, k: K)
    ensures
        forall|c: K| #[trigger] without_key(list, k).contains(c) <==> list.contains(c) && c != k,
        list.no_duplicates() ==> without_key(list, k).no_duplicates(),
        without_key(list, k).len() <= list.len(),
    decreases list.len(),
{
    if list.len() > 0 {
        let rest = list.drop_last();
        lemma_without_key(rest, k);
        let kept = without_key(rest, k);
        let after = without_key(list, k);
        let last = list.last();
        assert(list[list.len() - 1] == last);
        assert forall|c: K| list.contains(c) <==> rest.contains(c) || c == last by {
            if rest.contains(c) {
                let i = choose|i: int| 0 <= i < rest.len() && rest[i] == c;
                assert(list[i] == c);
            }
            if list.contains(c) {
                let i = choose|i: int| 0 <= i < list.len() && list[i] == c;
                if i < rest.len() {
                    assert(rest[i] == c);
                }
            }
        }
        if last != k {
            assert(after == kept.push(last));
            assert(after[after.len() - 1] == last);
            assert forall|c: K| after.contains(c) <==> kept.contains(c) || c == last by {
                if kept.contains(c) {
                    let i = choose|i: int| 0 <= i < kept.len() && kept[i] == c;
                    assert(after[i] == c);
                }
            }
        }
        if list.no_duplicates() {
            assert(!rest.contains(last)) by {
                if rest.contains(last) {
                    let i = choose|i: int| 0 <= i < rest.len() && rest[i] == last;
                    assert(list[i] == list[list.len() - 1]);
                }
            }
            assert(!kept.contains(last));
        }
    }
}

/// A slot that is set is a key that is set.
proof fn lemma_inserted<K: TableKey, V>(before: Table<K, V>, k: K)
    requires
        before.wf(),
        forall|c: K| #[trigger] c.number() == k.number() ==> c == k,
    ensures
        forall|t: Table<K, V>, v: V|
            t.slots@ == #[trigger] before.slots@.insert(k.number(), v) ==> #[trigger] t@
                == before@.insert(k, v),
{
    assert forall|t: Table<K, V>, v: V|
        t.slots@ == #[trigger] before.slots@.insert(k.number(), v) implies #[trigger] t@
        == before@.insert(k, v) by {
        assert(t@ =~= before@.insert(k, v));
    }
}

} // verus!
