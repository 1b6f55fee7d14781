//! A binary min-heap over keys.

use crate::sorted_map::Key;
use vstd::multiset::Multiset;
use vstd::prelude::*;

verus! {

/// A priority queue that hands out its least item first.
pub struct MinHeap<K: Key + Copy> {
    slots: Vec<K>,
}

/// Where the parent of slot `i` stands.
spec fn parent(i: int) -> int {
    (i - 1) / 2
}

/// `a` does not come before `b`.
pub open spec fn at_least<K: Key>(a: K, b: K) -> bool {
    !K::precedes(a@, b@)
}

/// Every slot but `skip` is at least its parent.
spec fn ordered_but<K: Key>(s: Seq<K>, skip: int) -> bool {
    forall|j: int|
        0 < j < s.len() && j != skip ==> at_least(#[trigger] s[j], s[parent(j)])
}

proof fn lemma_at_least_transitive<K: Key>(a: K, b: K, c: K)
    requires
        at_least(a, b),
        at_least(b, c),
    ensures
        at_least(a, c),
{
    K::strict_total(a@, b@);
    K::strict_total(b@, c@);
    if K::precedes(a@, c@) {
        if K::precedes(b@, a@) {
            K::transitive(b@, a@, c@);
        }
    }
}

/// In an ordered heap nothing comes before the root.
proof fn lemma_root_is_least<K: Key>(s: Seq<K>, j: int)
    requires
        ordered_but(s, -1),
        0 <= j < s.len(),
    ensures
        at_least(s[j], s[0]),
    decreases j,
{
    if j == 0 {
        K::strict_total(s[0]@, s[0]@);
    } else {
        lemma_root_is_least(s, parent(j));
        lemma_at_least_transitive(s[j], s[parent(j)], s[0]);
    }
}

proof fn lemma_swap_keeps_items<T>(s: Seq<T>, i: int, j: int)
    requires
        0 <= i < s.len(),
        0 <= j < s.len(),
        i != j,
    ensures
        s.update(i, s[j]).update(j, s[i]).to_multiset() == s.to_multiset(),
{
    broadcast use vstd::seq_lib::group_to_multiset_ensures;

}

impl<K: Key + Copy> View for MinHeap<K> {
    type V = Multiset<K>;

    closed spec fn view(&self) -> Multiset<K> {
        self.slots@.to_multiset()
    }
}

impl<K: Key + Copy> MinHeap<K> {
    /// Every slot is at least its parent.
    pub closed spec fn wf(&self) -> bool {
        ordered_but(self.slots@, -1)
    }

    /// An empty queue.
    pub fn new() -> (h: Self)
        ensures
            h.wf(),
            h@ == Multiset::<K>::empty(),
    {
        let h = MinHeap { slots: Vec::new() };
        proof {
            broadcast use vstd::seq_lib::group_to_multiset_ensures;

        }
        h
    }

    /// How many items there are.
    pub fn len(&self) -> (n: usize)
        ensures
            n == self@.len(),
    {
        proof {
            broadcast use vstd::seq_lib::group_to_multiset_ensures;

        }
        self.slots.len()
    }

    /// Add an item.
    pub fn push(&mut self, item: K)
        requires
            old(self).wf(),
        ensures
            final(self).wf(),
            final(self)@ == old(self)@.insert(item),
    {
        let ghost before = self.slots@;
        self.slots.push(item);
        let mut i: usize = self.slots.len() - 1;
        proof {
            broadcast use vstd::seq_lib::group_to_multiset_ensures;

        }
        while i > 0
            invariant_except_break
                ordered_but(self.slots@, i as int),
                forall|c: int|
                    0 < c < self.slots@.len() && parent(c) == i && i > 0 ==> at_least(
                        #[trigger] self.slots@[c],
                        self.slots@[parent(i as int)],
                    ),
            invariant
                i < self.slots@.len(),
                self.slots@.to_multiset() == before.to_multiset().insert(item),
            ensures
                ordered_but(self.slots@, -1),
            decreases i,
        {
            let p: usize = (i - 1) / 2;
            let a: K = self.slots[i];
            let b: K = self.slots[p];
            if !a.before(&b) {
                break;
            }
            let ghost s = self.slots@;
            self.slots[i] = b;
            self.slots[p] = a;
            proof {
                lemma_swap_keeps_items(s, i as int, p as int);
                let t = self.slots@;
                K::strict_total(a@, b@);
                assert forall|j: int| 0 < j < t.len() && j != p implies at_least(
                    #[trigger] t[j],
                    t[parent(j)],
                ) by {
                    if j != i && parent(j) == p && K::precedes(s[j]@, a@) {
                        K::transitive(s[j]@, a@, b@);
                    }
                }
                assert forall|c: int| 0 < c < t.len() && parent(c) == p && p > 0 implies at_least(
                    #[trigger] t[c],
                    t[parent(p as int)],
                ) by {
                    if c != i {
                        lemma_at_least_transitive(s[c], s[p as int], s[parent(p as int)]);
                    }
                }
            }
            i = p;
        }
    }

    /// Take the least item, or `None` where there is none.
    pub fn pop(&mut self) -> (r: Option<K>)
        requires
            old(self).wf(),
        ensures
            final(self).wf(),
            match r {
                None => old(self)@.len() == 0 && final(self)@ == old(self)@,
                Some(item) => {
                    &&& old(self)@.count(item) > 0
                    &&& final(self)@ == old(self)@.remove(item)
                    &&& forall|x: K| #[trigger] old(self)@.count(x) > 0 ==> at_least(x, item)
                },
            },
    {
        proof {
            broadcast use vstd::seq_lib::group_to_multiset_ensures;

        }
        let n: usize = self.slots.len();
        if n == 0 {
            return None;
        }
        let ghost before = self.slots@;
        let top: K = self.slots[0];
        let last: K = self.slots[n - 1];
        proof {
            broadcast use vstd::seq_lib::group_to_multiset_ensures;

            assert forall|x: K| #[trigger] before.to_multiset().count(x) > 0 implies at_least(
                x,
                top,
            ) by {
                let j = choose|j: int| 0 <= j < before.len() && before[j] == x;
                lemma_root_is_least(before, j);
            }
        }
        self.slots[0] = last;
        let dropped = self.slots.pop();
        proof {
            broadcast use vstd::seq_lib::group_to_multiset_ensures;

            let moved = before.update(0, last);
            assert(moved =~= self.slots@.push(moved.last()));
            assert(self.slots@.to_multiset() =~= before.to_multiset().remove(top)) by {
                assert forall|x: K| self.slots@.to_multiset().count(x)
                    == before.to_multiset().remove(top).count(x) by {
                    assert(moved.to_multiset().count(x) == self.slots@.to_multiset().insert(
                        last,
                    ).count(x));
                }
            }
        }
        self.sift_down();
        Some(top)
    }

    /// Restore the order where only the root may be out of place.
    fn sift_down(&mut self)
        requires
            forall|j: int|
                0 < j < old(self).slots@.len() && parent(j) != 0 ==> at_least(
                    #[trigger] old(self).slots@[j],
                    old(self).slots@[parent(j)],
                ),
        ensures
            final(self).wf(),
            final(self)@ == old(self)@,
    {
        let n: usize = self.slots.len();
        let mut i: usize = 0;
        // The children of slot `i` are in range while `i < n / 2`.
        while i < n / 2
            invariant_except_break
                forall|j: int|
                    0 < j < n && parent(j) != i ==> at_least(
                        #[trigger] self.slots@[j],
                        self.slots@[parent(j)],
                    ),
                forall|c: int|
                    0 < c < n && parent(c) == i && i > 0 ==> at_least(
                        #[trigger] self.slots@[c],
                        self.slots@[parent(i as int)],
                    ),
            invariant
                n == self.slots@.len(),
                self.slots@.to_multiset() == old(self).slots@.to_multiset(),
            ensures
                ordered_but(self.slots@, -1),
            decreases n - i,
        {
            let left: usize = 2 * i + 1;
            let right: usize = left + 1;
            let mut c: usize = left;
            if right < n && self.slots[right].before(&self.slots[left]) {
                c = right;
            }
            let a: K = self.slots[i];
            let b: K = self.slots[c];
            proof {
                K::strict_total(self.slots@[left as int]@, b@);
                K::strict_total(b@, b@);
                if right < n {
                    K::strict_total(self.slots@[right as int]@, self.slots@[left as int]@);
                }
                // Both children are at least the chosen one.
                assert(forall|j: int|
                    0 < j < n && parent(j) == i ==> at_least(#[trigger] self.slots@[j], b));
            }
            if !b.before(&a) {
                proof {
                    assert forall|j: int| 0 < j < n implies at_least(
                        #[trigger] self.slots@[j],
                        self.slots@[parent(j)],
                    ) by {
                        if parent(j) == i {
                            lemma_at_least_transitive(self.slots@[j], b, a);
                        }
                    }
                }
                break;
            }
            let ghost s = self.slots@;
            self.slots[i] = b;
            self.slots[c] = a;
            proof {
                lemma_swap_keeps_items(s, i as int, c as int);
                K::strict_total(a@, b@);
            }
            i = c;
        }
    }
}

/// What adding to a queue and taking from it do: an item is added once, and the
/// one taken is among those that are there, with none of them before it.
pub proof fn law_the_least_is_taken_first<K: Key + Copy>(item: K, r: Option<K>, x: K)
    ensures
        forall|h: &mut MinHeap<K>|
            h.wf() && #[trigger] call_ensures(MinHeap::<K>::push, (h, item), ()) ==> {
                let (before, after) = (h@, (*final(h))@);
                &&& after.count(item) == before.count(item) + 1
                &&& x != item ==> after.count(x) == before.count(x)
            },
        forall|h: &mut MinHeap<K>|
            h.wf() && #[trigger] call_ensures(MinHeap::<K>::pop, (h,), r) ==> {
                let (before, after) = (h@, (*final(h))@);
                &&& r is None <==> before.len() == 0
                &&& r is Some ==> before.count(r->0) == after.count(r->0) + 1
                &&& r is Some && x != r->0 ==> after.count(x) == before.count(x)
                &&& r is Some && before.count(x) > 0 ==> !K::precedes(x@, r->0@)
            },
{
    assert forall|h: &mut MinHeap<K>|
        h.wf() && #[trigger] call_ensures(MinHeap::<K>::pop, (h,), r) && r is Some implies h@.len()
        > 0 by {
        assert(h@.contains(r->0));
    }
}

} // verus!
