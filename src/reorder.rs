use vstd::prelude::*;

verus! {

/// Puts results that complete out of order back into submission order: results are handed
/// in with their index and handed out strictly by increasing index, with no gap.
pub struct Resequencer<T> {
    next: usize,
    slots: Vec<Option<T>>,
}

impl<T> Resequencer<T> {
    /// The index of the next result to hand out.
    pub closed spec fn next_index(&self) -> nat {
        self.next as nat
    }

    /// Results handed in and not yet handed out, by index.
    pub closed spec fn waiting(&self) -> Map<nat, T> {
        Map::new(
            |i: nat| self.next <= i < self.next + self.slots@.len() && self.slots@[i - self.next] is Some,
            |i: nat| self.slots@[i - self.next]->Some_0,
        )
    }

    /// A resequencer waiting for index 0.
    pub fn new() -> (r: Self)
        ensures
            r.next_index() == 0,
            r.waiting() == Map::<nat, T>::empty(),
    {
        let r = Resequencer { next: 0, slots: Vec::new() };
        assert(r.waiting() =~= Map::<nat, T>::empty());
        r
    }

    /// Hands in the result with index `index`.
    pub fn push(&mut self, index: usize, item: T)
        requires
            index >= old(self).next_index(),
            !old(self).waiting().contains_key(index as nat),
        ensures
            final(self).next_index() == old(self).next_index(),
            final(self).waiting() == old(self).waiting().insert(index as nat, item),
    {
        let k = index - self.next;
        let ghost old_slots = self.slots@;
        while self.slots.len() <= k
            invariant
                self.next == old(self).next,
                k == index - self.next,
                self.slots@.len() >= old_slots.len(),
                self.slots@.subrange(0, old_slots.len() as int) == old_slots,
                forall|j: int| old_slots.len() <= j < self.slots@.len() ==> self.slots@[j] is None,
            decreases k + 1 - self.slots@.len(),
        {
            self.slots.push(None);
        }
        self.slots.set(k, Some(item));
        assert(self.waiting() =~= old(self).waiting().insert(index as nat, item)) by {
            assert forall|i: nat| #![auto] old(self).waiting().contains_key(i) && i != index implies self.slots@[i - self.next] == old_slots[i - self.next] by {
                assert(self.slots@.subrange(0, old_slots.len() as int)[i - self.next] == old_slots[i - self.next]);
            }
        }
    }

    /// Hands out the result with the next index, if it has been handed in.
    pub fn pop_ready(&mut self) -> (r: Option<T>)
        requires
            old(self).next_index() < usize::MAX,
        ensures
            old(self).waiting().contains_key(old(self).next_index()) ==> {
                &&& r == Some(old(self).waiting()[old(self).next_index()])
                &&& final(self).next_index() == old(self).next_index() + 1
                &&& final(self).waiting() == old(self).waiting().remove(old(self).next_index())
            },
            !old(self).waiting().contains_key(old(self).next_index()) ==> {
                &&& r is None
                &&& final(self).next_index() == old(self).next_index()
                &&& final(self).waiting() == old(self).waiting()
            },
    {
        if self.slots.len() > 0 && self.slots[0].is_some() {
            let r = self.slots.remove(0);
            self.next = self.next + 1;
            assert(self.waiting() =~= old(self).waiting().remove(old(self).next_index())) by {
                assert forall|i: nat| #![auto] self.waiting().contains_key(i) implies self.slots@[i - self.next] == old(self).slots@[i - old(self).next] by {}
            }
            r
        } else {
            None
        }
    }
}

} // verus!
