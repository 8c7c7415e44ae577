//! A free-list allocator of dense indices with last-freed-first-reused order.

use vstd::prelude::*;

verus! {

/// Hands out dense indices: the most recently returned one if any, else the
/// next never-used one.
pub struct IndexPool {
    recycled: Vec<usize>,
    next_index: usize,
}

impl IndexPool {
    /// Indices returned and not yet handed out again, oldest first.
    pub closed spec fn spec_recycled(&self) -> Seq<usize> {
        self.recycled@
    }

    /// Number of distinct indices ever handed out.
    pub closed spec fn spec_next_index(&self) -> usize {
        self.next_index
    }

    /// Number of indices currently handed out.
    pub open spec fn spec_count(&self) -> int {
        self.spec_next_index() - self.spec_recycled().len()
    }

    /// Recycled indices are distinct and were all handed out before.
    pub open spec fn wf(&self) -> bool {
        &&& self.spec_recycled().no_duplicates()
        &&& forall|k: int|
            0 <= k < self.spec_recycled().len() ==> #[trigger] self.spec_recycled()[k]
                < self.spec_next_index()
    }

    /// Whether `get_index` can hand out an index without overflow.
    pub open spec fn can_get(&self) -> bool {
        self.spec_recycled().len() > 0 || self.spec_next_index() < usize::MAX
    }

    pub fn new() -> (r: IndexPool)
        ensures
            r.wf(),
            r.spec_recycled() == Seq::<usize>::empty(),
            r.spec_next_index() == 0,
    {
        IndexPool { recycled: Vec::new(), next_index: 0 }
    }

    /// Rebuilds a pool from its recycled indices and its index bound.
    pub(crate) fn from_parts(recycled: Vec<usize>, next_index: usize) -> (r: IndexPool)
        requires
            recycled@.no_duplicates(),
            forall|k: int| 0 <= k < recycled@.len() ==> #[trigger] recycled@[k] < next_index,
        ensures
            r.wf(),
            r.spec_recycled() == recycled@,
            r.spec_next_index() == next_index,
    {
        IndexPool { recycled, next_index }
    }

    /// Number of indices currently handed out.
    pub fn count(&self) -> (r: usize)
        requires
            self.wf(),
        ensures
            r == self.spec_count(),
    {
        proof {
            self.lemma_recycled_fit();
        }
        self.next_index - self.recycled.len()
    }

    /// Distinct indices below `next_index` number at most `next_index`.
    pub proof fn lemma_recycled_fit(&self)
        requires
            self.wf(),
        ensures
            self.spec_recycled().len() <= self.spec_next_index(),
    {
        let s = self.spec_recycled();
        let bound = Set::<int>::new(|i: int| 0 <= i < self.spec_next_index());
        let vals = s.to_set().map(|x: usize| x as int);
        vstd::set_lib::lemma_int_range(0, self.spec_next_index() as int);
        assert(bound =~= vstd::set_lib::set_int_range(0, self.spec_next_index() as int));
        s.unique_seq_to_set();
        assert forall|i: int| vals.contains(i) implies bound.contains(i) by {
            let x = choose|x: usize| s.to_set().contains(x) && x as int == i;
            let k = choose|k: int| 0 <= k < s.len() && s[k] == x;
            assert(s[k] < self.spec_next_index());
        }
        vstd::set_lib::lemma_len_subset(vals, bound);
        vstd::seq_lib::seq_to_set_is_finite(s);
        let f = |x: usize| x as int;
        assert(vals == s.to_set().map(f));
        assert(vstd::relations::injective_on(f, s.to_set()));
        vstd::set_lib::lemma_map_size(s.to_set(), vals, f);
    }

    /// The recycled indices, oldest first.
    pub fn recycled(&self) -> (r: &Vec<usize>)
        ensures
            r@ == self.spec_recycled(),
    {
        &self.recycled
    }

    /// Number of distinct indices ever handed out.
    pub fn next_index(&self) -> (r: usize)
        ensures
            r == self.spec_next_index(),
    {
        self.next_index
    }

    /// Whether a fresh index can still be made without overflow.
    pub fn next_index_below_max(&self) -> (r: bool)
        ensures
            r == (self.spec_next_index() < usize::MAX),
    {
        self.next_index < usize::MAX
    }

    /// Hands out an index: the last one returned if any, else a new one.
    pub fn get_index(&mut self) -> (r: usize)
        requires
            old(self).wf(),
            old(self).can_get(),
        ensures
            final(self).wf(),
            old(self).spec_recycled().len() > 0 ==> {
                &&& r == old(self).spec_recycled().last()
                &&& final(self).spec_recycled() == old(self).spec_recycled().drop_last()
                &&& final(self).spec_next_index() == old(self).spec_next_index()
            },
            old(self).spec_recycled().len() == 0 ==> {
                &&& r == old(self).spec_next_index()
                &&& final(self).spec_recycled() == old(self).spec_recycled()
                &&& final(self).spec_next_index() == old(self).spec_next_index() + 1
            },
    {
        match self.recycled.pop() {
            Some(id) => {
                proof {
                    let s = old(self).spec_recycled();
                    assert(s.drop_last() =~= s.subrange(0, s.len() - 1));
                    assert forall|a: int, b: int|
                        0 <= a < s.len() - 1 && 0 <= b < s.len() - 1 && a != b implies
                        s.drop_last()[a] != s.drop_last()[b] by {
                        assert(s[a] != s[b]);
                    }
                    assert forall|k: int| 0 <= k < s.len() - 1 implies
                        #[trigger] s.drop_last()[k] < self.next_index by {
                        assert(s[k] < self.next_index);
                    }
                }
                id
            },
            None => {
                self.next_index += 1;
                self.next_index - 1
            },
        }
    }

    /// Returns an index to the pool; it must be handed out and not already returned.
    pub fn return_id(&mut self, id: usize)
        requires
            old(self).wf(),
            id < old(self).spec_next_index(),
            !old(self).spec_recycled().contains(id),
        ensures
            final(self).wf(),
            final(self).spec_recycled() == old(self).spec_recycled().push(id),
            final(self).spec_next_index() == old(self).spec_next_index(),
    {
        self.recycled.push(id);
        proof {
            let s = old(self).spec_recycled();
            let t = self.recycled@;
            assert forall|a: int, b: int| 0 <= a < t.len() && 0 <= b < t.len() && a != b implies
                t[a] != t[b] by {
                if a == s.len() {
                    assert(t[b] == s[b]);
                } else if b == s.len() {
                    assert(t[a] == s[a]);
                } else {
                    assert(t[a] == s[a] && t[b] == s[b]);
                }
            }
            assert forall|k: int| 0 <= k < t.len() implies #[trigger] t[k] < self.next_index by {
                if k < s.len() {
                    assert(t[k] == s[k]);
                }
            }
        }
    }
}

} // verus!
