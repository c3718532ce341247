use vstd::prelude::*;

verus! {

/// The last `cap` items at most, newest first.
pub open spec fn recent<T>(items: Seq<T>, cap: nat) -> Seq<T> {
    let k = if items.len() < cap {
        items.len()
    } else {
        cap
    };
    Seq::new(k, |i: int| items[items.len() - 1 - i])
}

/// A bounded list of the most recent items, newest first.
pub struct RingBuffer<T> {
    items: Vec<T>,
    capacity: usize,
}

impl<T> View for RingBuffer<T> {
    type V = Seq<T>;

    closed spec fn view(&self) -> Seq<T> {
        self.items@
    }
}

impl<T> RingBuffer<T> {
    pub closed spec fn capacity_spec(&self) -> nat {
        self.capacity as nat
    }

    pub open spec fn wf(&self) -> bool {
        self@.len() <= self.capacity_spec()
    }

    /// An empty buffer that keeps at most `capacity` items.
    pub fn with_capacity(capacity: usize) -> (r: Self)
        ensures
            r@ == Seq::<T>::empty(),
            r.capacity_spec() == capacity,
            r.wf(),
    {
        RingBuffer { items: Vec::with_capacity(capacity), capacity }
    }

    /// Puts `item` in front, first dropping the oldest item when full.
    pub fn push(&mut self, item: T)
        requires
            old(self).wf(),
        ensures
            final(self).wf(),
            final(self).capacity_spec() == old(self).capacity_spec(),
            final(self)@ == if old(self).capacity_spec() == 0 {
                old(self)@
            } else if old(self)@.len() >= old(self).capacity_spec() {
                seq![item] + old(self)@.drop_last()
            } else {
                seq![item] + old(self)@
            },
    {
        if self.capacity == 0 {
            return;
        }
        if self.items.len() >= self.capacity {
            self.items.pop();
        }
        self.items.insert(0, item);
        assert(self.items@ =~= if old(self)@.len() >= old(self).capacity_spec() {
            seq![item] + old(self)@.drop_last()
        } else {
            seq![item] + old(self)@
        });
    }

    pub fn len(&self) -> (r: usize)
        ensures
            r == self@.len(),
    {
        self.items.len()
    }

    pub fn get(&self, i: usize) -> (r: &T)
        requires
            i < self@.len(),
        ensures
            *r == self@[i as int],
    {
        &self.items[i]
    }
}

/// Pushing each item in turn into a buffer of capacity `cap` keeps the last
/// `cap` of them, newest first.
pub proof fn lemma_recent_push<T>(items: Seq<T>, item: T, cap: nat)
    requires
        cap > 0,
    ensures
        recent(items.push(item), cap) == if recent(items, cap).len() >= cap {
            seq![item] + recent(items, cap).drop_last()
        } else {
            seq![item] + recent(items, cap)
        },
{
    let r = recent(items, cap);
    if r.len() >= cap {
        assert(recent(items.push(item), cap) =~= seq![item] + r.drop_last());
    } else {
        assert(recent(items.push(item), cap) =~= seq![item] + r);
    }
}

} // verus!
