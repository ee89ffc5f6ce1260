//! Small sets of `u32` heights, kept as strictly increasing vectors.
//!
//! Each tile of the grid records the distinct heights seen at the
//! 4-connected neighbours of the pixels it has absorbed.  The sets are
//! small (typically at most four entries per pixel before merging), so a
//! sorted vector is both simple and cheap.

use vstd::prelude::*;

verus! {

/// A finite set of `u32` values stored as a strictly increasing vector.
pub struct HeightSet {
    items: Vec<u32>,
}

impl View for HeightSet {
    type V = Set<u32>;

    closed spec fn view(&self) -> Set<u32> {
        self.items@.to_set()
    }
}

impl HeightSet {
    /// The backing vector is strictly increasing: sorted with no duplicates.
    pub closed spec fn wf(&self) -> bool {
        forall|i: int, j: int|
            0 <= i < j < self.items@.len() ==> self.items@[i] < self.items@[j]
    }

    /// The empty set.
    pub fn empty() -> (r: Self)
        ensures
            r.wf(),
            r@ == Set::<u32>::empty(),
    {
        let r = HeightSet { items: Vec::new() };
        proof {
            assert(r@ =~= Set::<u32>::empty());
        }
        r
    }

    /// Add one value to the set.
    pub fn insert(&mut self, v: u32)
        requires
            old(self).wf(),
        ensures
            final(self).wf(),
            final(self)@ == old(self)@.insert(v),
    {
        let ghost old_items = self.items@;
        let mut i: usize = 0;
        while i < self.items.len() && self.items[i] < v
            invariant
                self.items@ == old_items,
                i <= self.items@.len(),
                forall|j: int| 0 <= j < i ==> self.items@[j] < v,
            decreases self.items@.len() - i,
        {
            i = i + 1;
        }
        if i < self.items.len() && self.items[i] == v {
            // Already present: the set is unchanged.
            proof {
                assert(self.items@.contains(v));
                assert(self@ =~= old(self)@.insert(v));
            }
        } else {
            self.items.insert(i, v);
            proof {
                let s = self.items@;
                // Strictly increasing is preserved by inserting at position i.
                assert forall|p: int, q: int| 0 <= p < q < s.len() implies s[p] < s[q] by {
                    if q < i {
                        assert(s[p] == old_items[p] && s[q] == old_items[q]);
                    } else if p > i {
                        assert(s[p] == old_items[p - 1] && s[q] == old_items[q - 1]);
                    } else if p < i && q == i {
                        assert(s[p] == old_items[p] && s[q] == v);
                    } else if p == i && q > i {
                        assert(s[p] == v && s[q] == old_items[q - 1]);
                        if i < old_items.len() {
                            assert(old_items[i as int] >= v);
                            assert(old_items[i as int] != v);
                        }
                        if q - 1 > i {
                            assert(old_items[i as int] < old_items[q - 1]);
                        }
                    } else if p < i && q > i {
                        assert(s[p] == old_items[p] && s[q] == old_items[q - 1]);
                        assert(old_items[p] < v);
                        if i < old_items.len() {
                            assert(old_items[i as int] >= v);
                        }
                        if q - 1 > p {
                            assert(old_items[p] < old_items[q - 1]);
                        }
                    }
                }
                // The set gained exactly v.
                assert forall|x: u32| self@.contains(x) implies old(self)@.insert(v).contains(x) by {
                    let k = choose|k: int| 0 <= k < s.len() && s[k] == x;
                    if k < i {
                        assert(old_items[k] == x);
                        assert(old_items.contains(x));
                    } else if k == i {
                        assert(x == v);
                    } else {
                        assert(old_items[k - 1] == x);
                        assert(old_items.contains(x));
                    }
                }
                assert forall|x: u32| old(self)@.insert(v).contains(x) implies self@.contains(x) by {
                    if x == v {
                        assert(s[i as int] == v);
                        assert(s.contains(x));
                    } else {
                        let k = choose|k: int| 0 <= k < old_items.len() && old_items[k] == x;
                        if k < i {
                            assert(s[k] == x);
                        } else {
                            assert(s[k + 1] == x);
                        }
                        assert(s.contains(x));
                    }
                }
                assert(self@ =~= old(self)@.insert(v));
            }
        }
    }

    /// Add every value of `other` to this set.
    pub fn union_with(&mut self, other: &HeightSet)
        requires
            old(self).wf(),
        ensures
            final(self).wf(),
            final(self)@ == old(self)@.union(other@),
    {
        let mut k: usize = 0;
        while k < other.items.len()
            invariant
                self.wf(),
                k <= other.items@.len(),
                old(self)@.subset_of(self@),
                self@.subset_of(old(self)@.union(other@)),
                forall|j: int| 0 <= j < k ==> self@.contains(#[trigger] other.items@[j]),
            decreases other.items@.len() - k,
        {
            let v = other.items[k];
            proof {
                assert(other.items@.contains(v));
                assert(other@.contains(v));
            }
            self.insert(v);
            k = k + 1;
        }
        proof {
            assert forall|x: u32| old(self)@.union(other@).contains(x) implies self@.contains(x) by {
                if !old(self)@.contains(x) {
                    let j = choose|j: int|
                        0 <= j < other.items@.len() && other.items@[j] == x;
                    assert(self@.contains(other.items@[j]));
                }
            }
            assert(self@ =~= old(self)@.union(other@));
        }
    }

    /// A copy of this set.
    pub fn duplicate(&self) -> (r: Self)
        requires
            self.wf(),
        ensures
            r.wf(),
            r@ == self@,
    {
        let mut items: Vec<u32> = Vec::new();
        let mut k: usize = 0;
        while k < self.items.len()
            invariant
                k <= self.items@.len(),
                items@ == self.items@.subrange(0, k as int),
            decreases self.items@.len() - k,
        {
            items.push(self.items[k]);
            k = k + 1;
        }
        proof {
            assert(items@ == self.items@);
        }
        let r = HeightSet { items };
        proof {
            assert(r@ =~= self@);
        }
        r
    }

    /// The least element, or zero when the set is empty.
    pub fn min_or_zero(&self) -> (r: u32)
        requires
            self.wf(),
        ensures
            r == self.spec_min_or_zero(),
    {
        if self.items.len() == 0 {
            0
        } else {
            self.items[0]
        }
    }

    /// Specification twin of [`Self::min_or_zero`].
    pub closed spec fn spec_min_or_zero(&self) -> u32 {
        if self.items@.len() == 0 {
            0u32
        } else {
            self.items@[0]
        }
    }

    /// `spec_min_or_zero` really is the least element (or zero on empty sets).
    pub proof fn lemma_min_or_zero(&self)
        requires
            self.wf(),
        ensures
            self@.is_empty() ==> self.spec_min_or_zero() == 0,
            !self@.is_empty() ==> self@.contains(self.spec_min_or_zero()),
            forall|v: u32| self@.contains(v) ==> self.spec_min_or_zero() <= v,
    {
        if self.items@.len() == 0 {
            assert(self@ =~= Set::<u32>::empty());
        } else {
            assert(self.items@.contains(self.items@[0]));
            assert forall|v: u32| self@.contains(v) implies self.spec_min_or_zero() <= v by {
                let k = choose|k: int| 0 <= k < self.items@.len() && self.items@[k] == v;
                if k > 0 {
                    assert(self.items@[0] < self.items@[k]);
                }
            }
        }
        if self@.is_empty() {
            if self.items@.len() > 0 {
                assert(self@.contains(self.items@[0]));
            }
        }
    }

    /// Whether the set is empty.
    pub fn is_empty(&self) -> (r: bool)
        ensures
            r == self@.is_empty(),
    {
        let r = self.items.len() == 0;
        proof {
            if r {
                assert(self@ =~= Set::<u32>::empty());
            } else {
                assert(self@.contains(self.items@[0]));
            }
        }
        r
    }

    /// Whether `v` is in the set.
    pub fn contains(&self, v: u32) -> (r: bool)
        requires
            self.wf(),
        ensures
            r == self@.contains(v),
    {
        let mut k: usize = 0;
        while k < self.items.len()
            invariant
                k <= self.items@.len(),
                forall|j: int| 0 <= j < k ==> self.items@[j] != v,
            decreases self.items@.len() - k,
        {
            if self.items[k] == v {
                proof {
                    assert(self.items@.contains(v));
                }
                return true;
            }
            k = k + 1;
        }
        proof {
            if self@.contains(v) {
                let j = choose|j: int| 0 <= j < self.items@.len() && self.items@[j] == v;
                assert(self.items@[j] != v);
            }
        }
        false
    }
}

} // verus!
