use vstd::prelude::*;

use std::collections::VecDeque;

verus! {

broadcast use vstd::std_specs::vecdeque::group_vec_dequeue_axioms;

/// Which queue of a cache an item sits in.
#[derive(Clone, Copy, PartialEq, Eq, Structural, Debug)]
pub enum CacheMark {
    Unmarked,
    Small,
    Main,
}

/// A cached entry with the cost it is charged.
pub struct CacheItem<K, V> {
    pub key: K,
    pub value: V,
    pub cost: usize,
    pub mark: CacheMark,
}

impl<K, V> CacheItem<K, V> {
    pub fn new(key: K, value: V, cost: usize) -> (r: CacheItem<K, V>)
        ensures
            r.key == key,
            r.value == value,
            r.cost == cost,
            r.mark == CacheMark::Unmarked,
    {
        CacheItem { key, value, cost, mark: CacheMark::Unmarked }
    }

    pub fn cost(&self) -> (r: usize)
        ensures
            r == self.cost,
    {
        self.cost
    }

    pub fn mark_small(&mut self)
        ensures
            final(self).mark == CacheMark::Small,
            final(self).key == old(self).key,
            final(self).value == old(self).value,
            final(self).cost == old(self).cost,
    {
        self.mark = CacheMark::Small;
    }

    pub fn unmark(&mut self)
        ensures
            final(self).mark == CacheMark::Unmarked,
            final(self).key == old(self).key,
            final(self).value == old(self).value,
            final(self).cost == old(self).cost,
    {
        self.mark = CacheMark::Unmarked;
    }
}

/// Total cost of a sequence of items.
pub open spec fn total_cost<K, V>(items: Seq<Box<CacheItem<K, V>>>) -> nat
    decreases items.len(),
{
    if items.len() == 0 {
        0
    } else {
        total_cost(items.drop_last()) + items.last().cost as nat
    }
}

proof fn lemma_total_cost_front<K, V>(items: Seq<Box<CacheItem<K, V>>>)
    requires
        items.len() > 0,
    ensures
        total_cost(items) == items[0].cost + total_cost(items.subrange(1, items.len() as int)),
    decreases items.len(),
{
    if items.len() > 1 {
        lemma_total_cost_front(items.drop_last());
        assert(items.drop_last().subrange(1, items.len() - 1) =~= items.subrange(1, items.len() as int).drop_last());
    } else {
        assert(items.subrange(1, items.len() as int) =~= Seq::<Box<CacheItem<K, V>>>::empty());
        assert(items.drop_last() =~= Seq::<Box<CacheItem<K, V>>>::empty());
    }
}

/// The small FIFO queue of a cache: items in insertion order, with the running total of
/// their costs.
pub struct SmallHotCache<K, V> {
    queue: VecDeque<Box<CacheItem<K, V>>>,
    cost: usize,
    capacity: usize,
}

impl<K, V> SmallHotCache<K, V> {
    /// The items, oldest first.
    pub closed spec fn items(&self) -> Seq<Box<CacheItem<K, V>>> {
        self.queue@
    }

    pub closed spec fn spec_capacity(&self) -> usize {
        self.capacity
    }

    /// The recorded cost is the total cost of the items.
    pub closed spec fn wf(&self) -> bool {
        self.cost == total_cost(self.queue@)
    }

    pub fn new(capacity: usize) -> (r: Self)
        ensures
            r.wf(),
            r.items() == Seq::<Box<CacheItem<K, V>>>::empty(),
            r.spec_capacity() == capacity,
    {
        SmallHotCache { queue: VecDeque::new(), cost: 0, capacity }
    }

    /// The total cost of the items held.
    pub fn get_size_counter(&self) -> (r: usize)
        requires
            self.wf(),
        ensures
            r == total_cost(self.items()),
    {
        self.cost
    }

    pub fn size(&self) -> (r: usize)
        requires
            self.wf(),
        ensures
            r == total_cost(self.items()),
    {
        self.cost
    }

    /// The items cost more than the capacity.
    pub fn is_full(&self) -> (r: bool)
        requires
            self.wf(),
        ensures
            r == (total_cost(self.items()) > self.spec_capacity()),
    {
        self.size() > self.capacity
    }

    pub fn count(&self) -> (r: usize)
        ensures
            r == self.items().len(),
    {
        self.queue.len()
    }

    /// Removes the oldest item, unmarked, if there is one.
    pub fn evict(&mut self) -> (r: Option<Box<CacheItem<K, V>>>)
        requires
            old(self).wf(),
        ensures
            final(self).wf(),
            final(self).spec_capacity() == old(self).spec_capacity(),
            match r {
                Some(item) => old(self).items().len() > 0 && final(self).items() == old(self).items().subrange(
                    1,
                    old(self).items().len() as int,
                ) && item.key == old(self).items()[0].key && item.value == old(self).items()[0].value
                    && item.cost == old(self).items()[0].cost && item.mark == CacheMark::Unmarked,
                None => old(self).items().len() == 0 && final(self).items() == old(self).items(),
            },
    {
        proof {
            if self.queue@.len() > 0 {
                lemma_total_cost_front(self.queue@);
            }
        }
        let mut item = match self.queue.pop_front() {
            Some(item) => item,
            None => {
                return None;
            },
        };
        self.cost = self.cost - item.cost();
        item.unmark();
        Some(item)
    }

    /// Appends `item`, marked as held by the small queue.
    pub fn insert(&mut self, item: Box<CacheItem<K, V>>)
        requires
            old(self).wf(),
            total_cost(old(self).items()) + item.cost <= usize::MAX,
        ensures
            final(self).wf(),
            final(self).spec_capacity() == old(self).spec_capacity(),
            final(self).items().len() == old(self).items().len() + 1,
            final(self).items().subrange(0, old(self).items().len() as int) == old(self).items(),
            final(self).items().last().key == item.key,
            final(self).items().last().value == item.value,
            final(self).items().last().cost == item.cost,
            final(self).items().last().mark == CacheMark::Small,
    {
        let mut item = item;
        item.mark_small();
        self.cost = self.cost + item.cost();
        let ghost before = self.queue@;
        self.queue.push_back(item);
        proof {
            assert(self.queue@.drop_last() =~= before);
            assert(self.queue@.subrange(0, before.len() as int) =~= before);
        }
    }

    /// Drops every item.
    pub fn clear(&mut self)
        ensures
            final(self).wf(),
            final(self).items() == Seq::<Box<CacheItem<K, V>>>::empty(),
            final(self).spec_capacity() == old(self).spec_capacity(),
    {
        self.queue.clear();
        self.cost = 0;
    }
}

} // verus!
