//! Allocation of node identifiers.

use vstd::prelude::*;

verus! {

/// Hands out unique node identifiers from an increasing counter, skipping
/// identifiers that were reserved explicitly.
pub struct IdAllocator {
    next: usize,
    reserved: Vec<usize>,
}

impl IdAllocator {
    /// The counter: every identifier below it has been handed out.
    pub closed spec fn counter(&self) -> usize {
        self.next
    }

    /// The identifiers reserved explicitly.
    pub closed spec fn reserved_ids(&self) -> Set<usize> {
        self.reserved@.to_set()
    }

    /// Whether `id` is in use: handed out or reserved.
    pub open spec fn is_taken(&self, id: usize) -> bool {
        id < self.counter() || self.reserved_ids().contains(id)
    }

    /// Whether no identifier is left: every one from the counter up to the
    /// largest (which is never handed out) is reserved.
    pub open spec fn exhausted(&self) -> bool {
        forall|i: usize| self.counter() <= i < usize::MAX ==> self.reserved_ids().contains(i)
    }

    pub fn new() -> (r: IdAllocator)
        ensures
            r.counter() == 0,
            r.reserved_ids() == Set::<usize>::empty(),
    {
        IdAllocator { next: 0, reserved: Vec::new() }
    }

    fn is_reserved(&self, id: usize) -> (r: bool)
        ensures
            r == self.reserved_ids().contains(id),
    {
        let mut i: usize = 0;
        while i < self.reserved.len()
            invariant
                i <= self.reserved@.len(),
                forall|k: int| 0 <= k < i ==> self.reserved@[k] != id,
            decreases self.reserved@.len() - i,
        {
            if self.reserved[i] == id {
                assert(self.reserved@.to_set().contains(id)) by {
                    assert(self.reserved@[i as int] == id);
                }
                return true;
            }
            i += 1;
        }
        false
    }

    /// Marks `id` as taken, so that `allocate` never hands it out.
    pub fn reserve(&mut self, id: usize)
        ensures
            final(self).counter() == old(self).counter(),
            final(self).reserved_ids() == old(self).reserved_ids().insert(id),
    {
        self.reserved.push(id);
        proof {
            assert(self.reserved@.to_set() =~= old(self).reserved@.to_set().insert(id)) by {
                assert(self.reserved@ == old(self).reserved@.push(id));
                assert forall|x: usize| self.reserved@.to_set().contains(x) <==> old(self).reserved@.to_set().insert(id).contains(x) by {
                    if self.reserved@.to_set().contains(x) {
                        let k = choose|k: int| 0 <= k < self.reserved@.len() && self.reserved@[k] == x;
                        if k < old(self).reserved@.len() {
                            assert(old(self).reserved@[k] == x);
                        }
                    }
                    if old(self).reserved@.to_set().contains(x) {
                        let k = choose|k: int| 0 <= k < old(self).reserved@.len() && old(self).reserved@[k] == x;
                        assert(self.reserved@[k] == x);
                    }
                    if x == id {
                        assert(self.reserved@[old(self).reserved@.len() as int] == x);
                    }
                }
            }
        }
    }

    /// Hands out the least identifier that is not taken, or `None` once the
    /// counter has run through every identifier.
    pub fn allocate(&mut self) -> (r: Option<usize>)
        ensures
            final(self).reserved_ids() == old(self).reserved_ids(),
            match r {
                Some(id) => {
                    &&& id < usize::MAX
                    &&& !old(self).is_taken(id)
                    &&& forall|i: usize| old(self).counter() <= i < id ==> old(self).reserved_ids().contains(i)
                    &&& final(self).counter() == id + 1
                },
                None => {
                    &&& forall|i: usize| old(self).counter() <= i < usize::MAX ==> old(self).reserved_ids().contains(i)
                    &&& final(self).counter() == usize::MAX
                },
            },
    {
        while self.next < usize::MAX && self.is_reserved(self.next)
            invariant
                self.reserved == old(self).reserved,
                old(self).next <= self.next,
                forall|i: usize| old(self).next <= i < self.next ==> self.reserved_ids().contains(i),
            decreases usize::MAX - self.next,
        {
            self.next = self.next + 1;
        }
        if self.next == usize::MAX {
            None
        } else {
            let id = self.next;
            self.next = self.next + 1;
            Some(id)
        }
    }
}

} // verus!
