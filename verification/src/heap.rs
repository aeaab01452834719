//! A binary min-heap of keys that order by weight first and by age second.

use vstd::multiset::Multiset;
use vstd::prelude::*;
use vstd::seq_lib::{to_multiset_build, to_multiset_contains, to_multiset_remove, to_multiset_update};

verus! {

/// A key of the heap: a weight, and an age that tells keys of one weight
/// apart.
#[derive(Clone, Copy, Debug)]
pub struct HeapKey {
    pub weight: u128,
    pub age: usize,
}

/// Whether `a` comes no later than `b`: the lighter key first, and of two
/// keys of one weight the one of lesser age.
pub open spec fn spec_key_le(a: HeapKey, b: HeapKey) -> bool {
    a.weight < b.weight || (a.weight == b.weight && a.age <= b.age)
}

/// The position above position `at` in the heap's tree.
pub open spec fn spec_parent(at: int) -> int {
    (at - 1) / 2
}

/// Every key but the first comes no earlier than the key above it.
pub open spec fn spec_heap_ordered(keys: Seq<HeapKey>) -> bool {
    forall|at: int| 1 <= at < keys.len() ==> spec_key_le(keys[spec_parent(at)], #[trigger] keys[at])
}

/// A heap order that may be broken between position `hole` and the position
/// above it; the keys below `hole` already respect the key above it.
pub open spec fn spec_ordered_above(keys: Seq<HeapKey>, hole: int) -> bool {
    &&& forall|at: int|
        1 <= at < keys.len() && at != hole ==> spec_key_le(keys[spec_parent(at)], #[trigger] keys[at])
    &&& forall|at: int|
        1 <= at < keys.len() && spec_parent(at) == hole && hole >= 1 ==> spec_key_le(
            keys[spec_parent(hole)],
            #[trigger] keys[at],
        )
}

/// A heap order that may be broken between position `hole` and the
/// positions below it; the keys below `hole` already respect the key above
/// it.
pub open spec fn spec_ordered_below(keys: Seq<HeapKey>, hole: int) -> bool {
    &&& forall|at: int|
        1 <= at < keys.len() && spec_parent(at) != hole ==> spec_key_le(
            keys[spec_parent(at)],
            #[trigger] keys[at],
        )
    &&& forall|at: int|
        1 <= at < keys.len() && spec_parent(at) == hole && hole >= 1 ==> spec_key_le(
            keys[spec_parent(hole)],
            #[trigger] keys[at],
        )
}

/// In an ordered heap no key comes earlier than the first.
pub proof fn lemma_first_is_least(keys: Seq<HeapKey>, at: int)
    requires
        spec_heap_ordered(keys),
        0 <= at < keys.len(),
    ensures
        spec_key_le(keys[0], keys[at]),
    decreases at,
{
    if at > 0 {
        lemma_first_is_least(keys, spec_parent(at));
        assert(spec_key_le(keys[spec_parent(at)], keys[at]));
    }
}

/// Decides whether `a` comes no later than `b`.
pub fn key_le(a: HeapKey, b: HeapKey) -> (le: bool)
    ensures
        le == spec_key_le(a, b),
{
    a.weight < b.weight || (a.weight == b.weight && a.age <= b.age)
}

/// A binary min-heap of keys.
pub struct MinHeap {
    keys: Vec<HeapKey>,
}

impl MinHeap {
    /// The keys in the order in which the heap stores them.
    pub closed spec fn keys(&self) -> Seq<HeapKey> {
        self.keys@
    }

    /// The keys that the heap holds.
    pub open spec fn content(&self) -> Multiset<HeapKey> {
        self.keys().to_multiset()
    }

    /// The heap is ordered.
    pub open spec fn wf(&self) -> bool {
        spec_heap_ordered(self.keys())
    }

    /// The empty heap.
    pub fn new() -> (heap: MinHeap)
        ensures
            heap.wf(),
            heap.keys() == Seq::<HeapKey>::empty(),
    {
        MinHeap { keys: Vec::new() }
    }

    /// How many keys the heap holds.
    pub fn len(&self) -> (count: usize)
        ensures
            count == self.keys().len(),
            count == self.content().len(),
    {
        proof {
            self.keys().to_multiset_ensures();
        }
        self.keys.len()
    }

    /// Exchanges the keys at two positions.
    fn swap(&mut self, one: usize, other: usize)
        requires
            one < old(self).keys().len(),
            other < old(self).keys().len(),
        ensures
            final(self).keys() == old(self).keys().update(one as int, old(self).keys()[other as int]).update(
                other as int,
                old(self).keys()[one as int],
            ),
            final(self).content() == old(self).content(),
    {
        let a = self.keys[one];
        let b = self.keys[other];
        let ghost before = self.keys@;
        self.keys.set(one, b);
        self.keys.set(other, a);
        proof {
            let middle = before.update(one as int, b);
            to_multiset_update(before, one as int, b);
            to_multiset_update(middle, other as int, a);
            before.to_multiset_ensures();
            middle.to_multiset_ensures();
            assert(before.to_multiset().count(a) > 0);
            assert(before.to_multiset().count(b) > 0);
            assert(self.keys@.to_multiset() =~= before.to_multiset());
        }
    }

    /// Adds a key.
    pub fn push(&mut self, key: HeapKey)
        requires
            old(self).wf(),
            old(self).keys().len() < usize::MAX,
        ensures
            final(self).wf(),
            final(self).content() == old(self).content().insert(key),
            final(self).keys().len() == old(self).keys().len() + 1,
    {
        proof {
            to_multiset_build(self.keys@, key);
        }
        self.keys.push(key);
        let mut at: usize = self.keys.len() - 1;
        while at > 0 && !key_le(self.keys[(at - 1) / 2], self.keys[at])
            invariant
                at < self.keys().len(),
                self.keys().len() == old(self).keys().len() + 1,
                self.content() == old(self).content().insert(key),
                spec_ordered_above(self.keys(), at as int),
            decreases at,
        {
            let above: usize = (at - 1) / 2;
            let ghost before = self.keys();
            self.swap(above, at);
            proof {
                let after = self.keys();
                assert forall|k: int| 1 <= k < after.len() && k != above implies spec_key_le(
                    after[spec_parent(k)],
                    #[trigger] after[k],
                ) by {
                    if k == at {
                    } else if spec_parent(k) == at {
                        assert(spec_key_le(before[spec_parent(at as int)], before[k]));
                    } else if spec_parent(k) == above {
                        assert(spec_key_le(before[spec_parent(k)], before[k]));
                    } else {
                        assert(spec_key_le(before[spec_parent(k)], before[k]));
                    }
                }
                assert forall|k: int|
                    1 <= k < after.len() && spec_parent(k) == above && above >= 1 implies spec_key_le(
                    after[spec_parent(above as int)],
                    #[trigger] after[k],
                ) by {
                    assert(spec_key_le(before[spec_parent(above as int)], before[above as int]));
                    if k != at {
                        assert(spec_key_le(before[spec_parent(k)], before[k]));
                    }
                }
            }
            at = above;
        }
    }

    /// Restores the order below position 0.
    fn sift_down(&mut self)
        requires
            spec_ordered_below(old(self).keys(), 0),
        ensures
            final(self).wf(),
            final(self).content() == old(self).content(),
            final(self).keys().len() == old(self).keys().len(),
    {
        let count = self.keys.len();
        let mut at: usize = 0;
        let mut settled = false;
        while !settled
            invariant
                count == self.keys().len(),
                count == old(self).keys().len(),
                self.content() == old(self).content(),
                settled ==> self.wf(),
                !settled ==> at < count || count == 0,
                !settled ==> spec_ordered_below(self.keys(), at as int),
            decreases (if settled { 0int } else { 1int }), count - at,
        {
            let mut least: usize = at;
            if at < count / 2 + 1 && 2 * at + 1 < count {
                let left: usize = 2 * at + 1;
                if !key_le(self.keys[least], self.keys[left]) {
                    least = left;
                }
                if left + 1 < count {
                    let right: usize = left + 1;
                    if !key_le(self.keys[least], self.keys[right]) {
                        least = right;
                    }
                }
            }
            if least == at {
                proof {
                    let keys = self.keys();
                    assert forall|k: int| 1 <= k < keys.len() implies spec_key_le(
                        keys[spec_parent(k)],
                        #[trigger] keys[k],
                    ) by {
                        if spec_parent(k) == at {
                            assert(k == 2 * at + 1 || k == 2 * at + 2);
                        }
                    }
                }
                settled = true;
            } else {
                let ghost before = self.keys();
                self.swap(at, least);
                proof {
                    let after = self.keys();
                    assert forall|k: int| 1 <= k < after.len() && spec_parent(k) != least implies spec_key_le(
                        after[spec_parent(k)],
                        #[trigger] after[k],
                    ) by {
                        if k == least {
                        } else if spec_parent(k) == at {
                            assert(k == 2 * at + 1 || k == 2 * at + 2);
                        } else if k == at {
                            assert(spec_key_le(before[spec_parent(at as int)], before[least as int]));
                        } else {
                            assert(spec_key_le(before[spec_parent(k)], before[k]));
                        }
                    }
                    assert forall|k: int|
                        1 <= k < after.len() && spec_parent(k) == least && least >= 1 implies spec_key_le(
                        after[spec_parent(least as int)],
                        #[trigger] after[k],
                    ) by {
                        assert(spec_key_le(before[spec_parent(k)], before[k]));
                    }
                }
                at = least;
            }
        }
    }

    /// Takes the least key out: the lightest, and of several of one weight
    /// the one of least age. None from an empty heap.
    pub fn pop(&mut self) -> (least: Option<HeapKey>)
        requires
            old(self).wf(),
        ensures
            final(self).wf(),
            old(self).keys().len() == 0 ==> least is None && final(self).keys() == old(self).keys(),
            old(self).keys().len() > 0 ==> least is Some && old(self).content().count(least->0) > 0
                && final(self).content() == old(self).content().remove(least->0)
                && final(self).keys().len() == old(self).keys().len() - 1,
            forall|key: HeapKey|
                old(self).content().count(key) > 0 && least is Some ==> spec_key_le(least->0, key),
    {
        if self.keys.len() == 0 {
            return None;
        }
        let ghost before = self.keys();
        let first = self.keys[0];
        proof {
            before.to_multiset_ensures();
            assert forall|key: HeapKey| before.to_multiset().count(key) > 0 implies spec_key_le(
                first,
                key,
            ) by {
                to_multiset_contains(before, key);
                let k = choose|k: int| 0 <= k < before.len() && before[k] == key;
                lemma_first_is_least(before, k);
            }
        }
        let last: usize = self.keys.len() - 1;
        self.swap(0, last);
        let ghost swapped = self.keys();
        let taken = self.keys.pop();
        proof {
            assert(self.keys() =~= swapped.remove(last as int));
            to_multiset_remove(swapped, last as int);
            let keys = self.keys();
            assert forall|k: int| 1 <= k < keys.len() && spec_parent(k) != 0 implies spec_key_le(
                keys[spec_parent(k)],
                #[trigger] keys[k],
            ) by {
                assert(spec_key_le(before[spec_parent(k)], before[k]));
            }
        }
        self.sift_down();
        Some(first)
    }
}

} // verus!
