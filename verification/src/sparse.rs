//! A sparse set of small integers with constant-time insertion, membership
//! and clearing, which remembers the order in which its members arrived.

use vstd::prelude::*;

verus! {

/// A set of integers below a fixed capacity.
///
/// `dense` holds the members in insertion order; `sparse[v]` points at the
/// slot of `v` in `dense` whenever `v` is a member.
pub struct SparseSet {
    dense: Vec<usize>,
    sparse: Vec<usize>,
}

impl View for SparseSet {
    type V = Seq<usize>;

    /// The members, in the order in which they were inserted.
    closed spec fn view(&self) -> Seq<usize> {
        self.dense@
    }
}

impl SparseSet {
    /// The largest member plus one that the set can hold.
    pub closed spec fn capacity(&self) -> nat {
        self.sparse@.len()
    }

    /// The representation invariant.
    pub closed spec fn wf(&self) -> bool {
        &&& forall|i: int| 0 <= i < self.dense@.len() ==> #[trigger] self.dense@[i] < self.sparse@.len()
        &&& forall|i: int| 0 <= i < self.dense@.len() ==> self.sparse@[#[trigger] self.dense@[i] as int] == i
        &&& self.dense@.len() <= self.sparse@.len()
    }

    /// Creates an empty set that can hold the integers below `capacity`.
    pub fn new(capacity: usize) -> (s: SparseSet)
        ensures
            s.wf(),
            s@ == Seq::<usize>::empty(),
            s.capacity() == capacity,
    {
        let mut sparse: Vec<usize> = Vec::new();
        let mut k: usize = 0;
        while k < capacity
            invariant
                k <= capacity,
                sparse@.len() == k,
            decreases capacity - k,
        {
            sparse.push(0);
            k = k + 1;
        }
        SparseSet { dense: Vec::new(), sparse }
    }

    /// Number of members.
    pub fn len(&self) -> (n: usize)
        ensures
            n == self@.len(),
    {
        self.dense.len()
    }

    /// Whether the set has no members.
    pub fn is_empty(&self) -> (b: bool)
        ensures
            b == (self@.len() == 0),
    {
        self.dense.len() == 0
    }

    /// The member that arrived `i`-th.
    pub fn at(&self, i: usize) -> (v: usize)
        requires
            i < self@.len(),
        ensures
            v == self@[i as int],
    {
        self.dense[i]
    }

    /// Whether `value` is a member.
    pub fn contains(&self, value: usize) -> (b: bool)
        requires
            self.wf(),
            value < self.capacity(),
        ensures
            b == self@.contains(value),
    {
        let i = self.sparse[value];
        let b = i < self.dense.len() && self.dense[i] == value;
        proof {
            if self@.contains(value) {
                let j = choose|j: int| 0 <= j < self@.len() && self@[j] == value;
                assert(self.sparse@[self.dense@[j] as int] == j);
            }
        }
        b
    }

    /// Adds `value`, which must not be a member yet, at the end of the order.
    pub fn insert(&mut self, value: usize)
        requires
            old(self).wf(),
            value < old(self).capacity(),
            !old(self)@.contains(value),
        ensures
            final(self).wf(),
            final(self)@ == old(self)@.push(value),
            final(self).capacity() == old(self).capacity(),
    {
        let i = self.dense.len();
        proof {
            // the members and `value` are distinct integers below the
            // capacity, so there is room for one more
            let grown = self.dense@.push(value);
            assert forall|a: int, b: int| 0 <= a < b < grown.len() implies grown[a] != grown[b] by {
                if b < i {
                    assert(self.sparse@[self.dense@[a] as int] == a);
                    assert(self.sparse@[self.dense@[b] as int] == b);
                } else {
                    assert(old(self)@[a] == grown[a]);
                }
            }
            lemma_distinct_below_bound(grown, self.sparse@.len());
        }
        self.dense.push(value);
        self.sparse.set(value, i);
        proof {
            assert forall|k: int| 0 <= k < self.dense@.len() implies
                self.sparse@[#[trigger] self.dense@[k] as int] == k by {
                if k < i {
                    assert(old(self).dense@[k] != value) by {
                        assert(old(self)@[k] == old(self).dense@[k]);
                    }
                }
            }
        }
    }

    /// Removes every member.
    pub fn clear(&mut self)
        requires
            old(self).wf(),
        ensures
            final(self).wf(),
            final(self)@ == Seq::<usize>::empty(),
            final(self).capacity() == old(self).capacity(),
    {
        self.dense.clear();
    }
}

/// A sequence of distinct integers below `bound` has at most `bound` members.
pub(crate) proof fn lemma_distinct_below_bound(s: Seq<usize>, bound: nat)
    requires
        forall|i: int| 0 <= i < s.len() ==> #[trigger] s[i] < bound,
        forall|a: int, b: int| 0 <= a < b < s.len() ==> s[a] != s[b],
    ensures
        s.len() <= bound,
{
    let set = s.to_set();
    assert(s.no_duplicates());
    s.unique_seq_to_set();
    let full = Set::new(|x: usize| x < bound);
    assert(set.subset_of(full));
    lemma_bounded_usize_set_len(bound);
    vstd::set_lib::lemma_len_subset(set, full);
}

/// The integers below `bound` form a finite set of `bound` elements.
proof fn lemma_bounded_usize_set_len(bound: nat)
    ensures
        Set::new(|x: usize| x < bound).finite(),
        Set::new(|x: usize| x < bound).len() <= bound,
    decreases bound,
{
    if bound == 0 {
        assert(Set::new(|x: usize| x < bound) =~= Set::empty());
    } else {
        lemma_bounded_usize_set_len((bound - 1) as nat);
        let smaller = Set::new(|x: usize| x < (bound - 1) as nat);
        if bound - 1 <= usize::MAX {
            let top = (bound - 1) as usize;
            assert(Set::new(|x: usize| x < bound) =~= smaller.insert(top));
        } else {
            assert(Set::new(|x: usize| x < bound) =~= smaller);
        }
    }
}

} // verus!

verus! {

impl SparseSet {
    /// The members of a well-formed set are distinct and below its capacity.
    pub proof fn lemma_members(&self)
        requires
            self.wf(),
        ensures
            forall|i: int| 0 <= i < self@.len() ==> #[trigger] self@[i] < self.capacity(),
            self@.no_duplicates(),
            self@.len() <= self.capacity(),
    {
        assert forall|a: int, b: int| 0 <= a < self@.len() && 0 <= b < self@.len() && a != b
            implies self@[a] != self@[b] by {
            assert(self.sparse@[self.dense@[a] as int] == a);
            assert(self.sparse@[self.dense@[b] as int] == b);
        }
        lemma_distinct_below_bound(self.dense@, self.sparse@.len());
    }
}

} // verus!
