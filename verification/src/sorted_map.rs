//! An ordered map kept as a sorted vector.
//!
//! Lookups are a binary search, and the entries come out in key order. The
//! order is that of the keys' views, so two keys are the same key exactly
//! where their views are equal.

use crate::text;
use vstd::prelude::*;

verus! {

/// A key: something with a strict total order on its view.
pub trait Key: View + Sized {
    /// Whether `a` comes strictly before `b`.
    spec fn precedes(a: Self::V, b: Self::V) -> bool;

    /// Of two keys exactly one comes first, or they are the same.
    proof fn strict_total(a: Self::V, b: Self::V)
        ensures
            Self::precedes(a, b) || Self::precedes(b, a) || a == b,
            !(Self::precedes(a, b) && Self::precedes(b, a)),
            a == b ==> !Self::precedes(a, b),
    ;

    /// The order is transitive.
    proof fn transitive(a: Self::V, b: Self::V, c: Self::V)
        requires
            Self::precedes(a, b),
            Self::precedes(b, c),
        ensures
            Self::precedes(a, c),
    ;

    /// Whether this key comes strictly before `other`.
    fn before(&self, other: &Self) -> (r: bool)
        ensures
            r == Self::precedes(self@, other@),
    ;
}

impl Key for String {
    open spec fn precedes(a: Seq<char>, b: Seq<char>) -> bool {
        text::text_before(a, b)
    }

    proof fn strict_total(a: Seq<char>, b: Seq<char>) {
        text::lemma_text_total(a, b);
    }

    proof fn transitive(a: Seq<char>, b: Seq<char>, c: Seq<char>) {
        text::lemma_text_transitive(a, b, c);
    }

    fn before(&self, other: &Self) -> (r: bool) {
        text::str_before(self.as_str(), other.as_str())
    }
}

impl Key for u32 {
    open spec fn precedes(a: u32, b: u32) -> bool {
        a < b
    }

    proof fn strict_total(a: u32, b: u32) {
    }

    proof fn transitive(a: u32, b: u32, c: u32) {
    }

    fn before(&self, other: &Self) -> (r: bool) {
        *self < *other
    }
}

impl Key for u64 {
    open spec fn precedes(a: u64, b: u64) -> bool {
        a < b
    }

    proof fn strict_total(a: u64, b: u64) {
    }

    proof fn transitive(a: u64, b: u64, c: u64) {
    }

    fn before(&self, other: &Self) -> (r: bool) {
        *self < *other
    }
}

impl Key for usize {
    open spec fn precedes(a: usize, b: usize) -> bool {
        a < b
    }

    proof fn strict_total(a: usize, b: usize) {
    }

    proof fn transitive(a: usize, b: usize, c: usize) {
    }

    fn before(&self, other: &Self) -> (r: bool) {
        *self < *other
    }
}

impl Key for i32 {
    open spec fn precedes(a: i32, b: i32) -> bool {
        a < b
    }

    proof fn strict_total(a: i32, b: i32) {
    }

    proof fn transitive(a: i32, b: i32, c: i32) {
    }

    fn before(&self, other: &Self) -> (r: bool) {
        *self < *other
    }
}

impl<A: Key, B: Key> Key for (A, B) {
    open spec fn precedes(a: (A::V, B::V), b: (A::V, B::V)) -> bool {
        A::precedes(a.0, b.0) || (a.0 == b.0 && B::precedes(a.1, b.1))
    }

    proof fn strict_total(a: (A::V, B::V), b: (A::V, B::V)) {
        A::strict_total(a.0, b.0);
        B::strict_total(a.1, b.1);
    }

    proof fn transitive(a: (A::V, B::V), b: (A::V, B::V), c: (A::V, B::V)) {
        if A::precedes(a.0, b.0) && A::precedes(b.0, c.0) {
            A::transitive(a.0, b.0, c.0);
        } else if a.0 == b.0 && b.0 == c.0 {
            B::transitive(a.1, b.1, c.1);
        }
    }

    fn before(&self, other: &Self) -> (r: bool) {
        proof {
            A::strict_total(self.0@, other.0@);
        }
        if self.0.before(&other.0) {
            true
        } else if other.0.before(&self.0) {
            false
        } else {
            self.1.before(&other.1)
        }
    }
}

/// Whether the keys of `slots` strictly increase.
pub open spec fn ascending<K: Key, T>(slots: Seq<(K, T)>) -> bool {
    forall|i: int, j: int|
        0 <= i < j < slots.len() ==> K::precedes(#[trigger] slots[i].0@, #[trigger] slots[j].0@)
}

/// Whether `slots` hold a value under `k`.
pub open spec fn holds_key<K: Key, T>(slots: Seq<(K, T)>, k: K::V) -> bool {
    exists|i: int| 0 <= i < slots.len() && #[trigger] slots[i].0@ == k
}

/// Where in `slots` the value under `k` stands.
pub open spec fn slot_of<K: Key, T>(slots: Seq<(K, T)>, k: K::V) -> int {
    choose|i: int| 0 <= i < slots.len() && #[trigger] slots[i].0@ == k
}

/// An ordered map from `K` to `T`.
#[derive(Clone, Debug)]
pub struct SortedMap<K: Key, T> {
    slots: Vec<(K, T)>,
}

impl<K: Key, T> View for SortedMap<K, T> {
    type V = Map<K::V, T>;

    closed spec fn view(&self) -> Map<K::V, T> {
        Map::new(
            |k: K::V| holds_key(self.slots@, k),
            |k: K::V| self.slots@[slot_of(self.slots@, k)].1,
        )
    }
}

proof fn lemma_slot_unique<K: Key, T>(slots: Seq<(K, T)>, i: int)
    requires
        ascending(slots),
        0 <= i < slots.len(),
    ensures
        holds_key(slots, slots[i].0@),
        slot_of(slots, slots[i].0@) == i,
{
    let k = slots[i].0@;
    K::strict_total(k, k);
}

impl<K: Key, T> SortedMap<K, T> {
    /// The slots are in strictly ascending key order.
    pub closed spec fn wf(&self) -> bool {
        ascending(self.slots@)
    }

    /// The entries, in key order.
    pub closed spec fn pairs(&self) -> Seq<(K, T)> {
        self.slots@
    }

    /// An empty map.
    pub fn new() -> (m: Self)
        ensures
            m.wf(),
            m@ == Map::<K::V, T>::empty(),
    {
        let m = SortedMap { slots: Vec::new() };
        m
    }

    /// How many entries there are.
    pub fn len(&self) -> (n: usize)
        ensures
            n == self.pairs().len(),
    {
        self.slots.len()
    }

    /// The `i`-th entry in key order.
    pub fn entry(&self, i: usize) -> (e: &(K, T))
        requires
            i < self.pairs().len(),
        ensures
            *e == self.pairs()[i as int],
    {
        &self.slots[i]
    }

    /// Where `key` stands, or where it would be inserted.
    fn position(&self, key: &K) -> (p: usize)
        requires
            self.wf(),
        ensures
            p <= self.slots@.len(),
            forall|i: int| 0 <= i < p ==> K::precedes(#[trigger] self.slots@[i].0@, key@),
            forall|i: int|
                p <= i < self.slots@.len() ==> !K::precedes(#[trigger] self.slots@[i].0@, key@),
    {
        let mut lo: usize = 0;
        let mut hi: usize = self.slots.len();
        while lo < hi
            invariant
                self.wf(),
                lo <= hi <= self.slots@.len(),
                forall|i: int| 0 <= i < lo ==> K::precedes(#[trigger] self.slots@[i].0@, key@),
                forall|i: int|
                    hi <= i < self.slots@.len() ==> !K::precedes(
                        #[trigger] self.slots@[i].0@,
                        key@,
                    ),
            decreases hi - lo,
        {
            let mid: usize = lo + (hi - lo) / 2;
            if self.slots[mid].0.before(key) {
                proof {
                    assert forall|i: int| 0 <= i < mid + 1 implies K::precedes(
                        #[trigger] self.slots@[i].0@,
                        key@,
                    ) by {
                        if i < mid {
                            K::transitive(self.slots@[i].0@, self.slots@[mid as int].0@, key@);
                        }
                    }
                }
                lo = mid + 1;
            } else {
                proof {
                    assert forall|i: int| mid <= i < self.slots@.len() implies !K::precedes(
                        #[trigger] self.slots@[i].0@,
                        key@,
                    ) by {
                        if i > mid && K::precedes(self.slots@[i].0@, key@) {
                            K::transitive(self.slots@[mid as int].0@, self.slots@[i].0@, key@);
                        }
                    }
                }
                hi = mid;
            }
        }
        lo
    }

    /// Whether the key at `position` is `key` itself.
    fn found(&self, p: usize, key: &K) -> (r: bool)
        requires
            self.wf(),
            p <= self.slots@.len(),
            forall|i: int| 0 <= i < p ==> K::precedes(#[trigger] self.slots@[i].0@, key@),
            forall|i: int|
                p <= i < self.slots@.len() ==> !K::precedes(#[trigger] self.slots@[i].0@, key@),
        ensures
            r == self@.contains_key(key@),
            r ==> p < self.slots@.len() && self.slots@[p as int].0@ == key@
                && self@[key@] == self.slots@[p as int].1,
    {
        let r = p < self.slots.len() && !key.before(&self.slots[p].0);
        proof {
            if r {
                K::strict_total(self.slots@[p as int].0@, key@);
                lemma_slot_unique(self.slots@, p as int);
            } else {
                if holds_key(self.slots@, key@) {
                    K::strict_total(key@, key@);
                }
            }
        }
        r
    }

    /// The value under `key`.
    pub fn get(&self, key: &K) -> (r: Option<&T>)
        requires
            self.wf(),
        ensures
            match r {
                Some(v) => self@.contains_key(key@) && *v == self@[key@],
                None => !self@.contains_key(key@),
            },
    {
        let p: usize = self.position(key);
        if self.found(p, key) {
            Some(&self.slots[p].1)
        } else {
            None
        }
    }

    /// Put `value` under `key`, replacing what was there.
    pub fn insert(&mut self, key: K, value: T)
        requires
            old(self).wf(),
        ensures
            final(self).wf(),
            final(self)@ == old(self)@.insert(key@, value),
    {
        let p: usize = self.position(&key);
        let ghost before = self.slots@;
        if self.found(p, &key) {
            self.slots[p] = (key, value);
            proof {
                let after = self.slots@;
                assert forall|i: int| 0 <= i < after.len() implies #[trigger] after[i].0@
                    == before[i].0@ by {}
                assert forall|i: int, j: int| 0 <= i < j < after.len() implies K::precedes(
                    #[trigger] after[i].0@,
                    #[trigger] after[j].0@,
                ) by {
                }
                Self::lemma_same_view(old(self), self, key@, value, p as int, false);
            }
        } else {
            self.slots.insert(p, (key, value));
            proof {
                let after = self.slots@;
                let k = key@;
                K::strict_total(k, k);
                assert forall|i: int, j: int| 0 <= i < j < after.len() implies K::precedes(
                    #[trigger] after[i].0@,
                    #[trigger] after[j].0@,
                ) by {
                    if i == p {
                        K::strict_total(before[j - 1].0@, k);
                    } else if j != p {
                        let i0 = if i < p {
                            i
                        } else {
                            i - 1
                        };
                        let j0 = if j < p {
                            j
                        } else {
                            j - 1
                        };
                    }
                }
                Self::lemma_same_view(old(self), self, key@, value, p as int, true);
            }
        }
    }

    proof fn lemma_same_view(
        before: &Self,
        after: &Self,
        k: K::V,
        value: T,
        p: int,
        grown: bool,
    )
        requires
            before.wf(),
            after.wf(),
            0 <= p < after.slots@.len(),
            after.slots@[p].0@ == k,
            after.slots@[p].1 == value,
            !grown ==> after.slots@.len() == before.slots@.len() && before.slots@[p].0@ == k && (
            forall|i: int| 0 <= i < p || p < i < after.slots@.len() ==> after.slots@[i] == before.slots@[i]),
            grown ==> after.slots@ == before.slots@.insert(p, after.slots@[p]) && p
                <= before.slots@.len(),
        ensures
            after@ == before@.insert(k, value),
    {
        let a = after.slots@;
        let b = before.slots@;
        lemma_slot_unique(a, p);
        assert forall|q: K::V| after@.contains_key(q) == before@.insert(k, value).contains_key(
            q,
        ) by {
            if q != k {
                if holds_key(a, q) {
                    let i = slot_of(a, q);
                    if grown {
                        let i0 = if i < p {
                            i
                        } else {
                            i - 1
                        };
                    }
                }
                if holds_key(b, q) {
                    let i = slot_of(b, q);
                    if grown {
                        let i1 = if i < p {
                            i
                        } else {
                            i + 1
                        };
                        assert(a[i1] == b[i]);
                    }
                }
            }
        }
        assert forall|q: K::V| after@.contains_key(q) implies after@[q] == before@.insert(
            k,
            value,
        )[q] by {
            if q != k {
                let i = slot_of(a, q);
                let i0 = if grown && i > p {
                    i - 1
                } else {
                    i
                };
                lemma_slot_unique(b, i0);
            }
        }
    }

    /// Drop the entry under `key`, and hand its value back.
    pub fn remove(&mut self, key: &K) -> (r: Option<T>)
        requires
            old(self).wf(),
        ensures
            final(self).wf(),
            final(self)@ == old(self)@.remove(key@),
            match r {
                Some(v) => old(self)@.contains_key(key@) && v == old(self)@[key@],
                None => !old(self)@.contains_key(key@),
            },
    {
        let p: usize = self.position(key);
        let ghost before = self.slots@;
        if self.found(p, key) {
            let e = self.slots.remove(p);
            proof {
                let after = self.slots@;
                assert forall|i: int, j: int| 0 <= i < j < after.len() implies K::precedes(
                    #[trigger] after[i].0@,
                    #[trigger] after[j].0@,
                ) by {
                    let i0 = if i < p {
                        i
                    } else {
                        i + 1
                    };
                    let j0 = if j < p {
                        j
                    } else {
                        j + 1
                    };
                }
                lemma_slot_unique(before, p as int);
                assert forall|q: K::V| self@.contains_key(q) == old(self)@.remove(
                    key@,
                ).contains_key(q) by {
                    if holds_key(after, q) {
                        let i = slot_of(after, q);
                        let i0 = if i < p {
                            i
                        } else {
                            i + 1
                        };
                        lemma_slot_unique(before, i0);
                    }
                    if holds_key(before, q) && q != key@ {
                        let i = slot_of(before, q);
                        let i1 = if i < p {
                            i
                        } else {
                            i - 1
                        };
                        assert(after[i1] == before[i]);
                    }
                }
                assert forall|q: K::V| self@.contains_key(q) implies self@[q] == old(self)@[q] by {
                    let i = slot_of(after, q);
                    let i0 = if i < p {
                        i
                    } else {
                        i + 1
                    };
                    lemma_slot_unique(before, i0);
                }
            }
            Some(e.1)
        } else {
            None
        }
    }

    /// Take all entries out, in key order.
    pub fn drain(&mut self) -> (all: Vec<(K, T)>)
        ensures
            all@ == old(self).pairs(),
            final(self).wf(),
            final(self).pairs().len() == 0,
            final(self)@ == Map::<K::V, T>::empty(),
    {
        let mut all: Vec<(K, T)> = Vec::new();
        std::mem::swap(&mut all, &mut self.slots);
        all
    }

    /// There are as many entries as keys.
    pub proof fn lemma_len(&self)
        requires
            self.wf(),
        ensures
            self@.dom().finite(),
            self@.dom().len() == self.pairs().len(),
    {
        let slots = self.slots@;
        let keys = slots.map_values(|e: (K, T)| e.0@);
        assert forall|i: int, j: int| 0 <= i < j < keys.len() implies keys[i] != keys[j] by {
            K::strict_total(slots[i].0@, slots[j].0@);
        }
        keys.unique_seq_to_set();
        assert forall|k: K::V| self@.dom().contains(k) == keys.to_set().contains(k) by {
            if holds_key(slots, k) {
                let i = slot_of(slots, k);
                assert(keys[i] == k);
            }
        }
        assert(self@.dom() =~= keys.to_set());
    }

    /// The entries and the map agree: the pairs stand in strictly ascending
    /// key order, each is in the map, and each key of the map is among them.
    pub proof fn lemma_pairs(&self)
        requires
            self.wf(),
        ensures
            ascending(self.pairs()),
            forall|i: int|
                0 <= i < self.pairs().len() ==> self@.contains_key(
                    (#[trigger] self.pairs()[i]).0@,
                ) && self@[self.pairs()[i].0@] == self.pairs()[i].1,
            forall|k: K::V| #[trigger]
                self@.contains_key(k) ==> exists|i: int|
                    0 <= i < self.pairs().len() && #[trigger] self.pairs()[i].0@ == k,
    {
        assert forall|i: int| 0 <= i < self.pairs().len() implies self@.contains_key(
            (#[trigger] self.pairs()[i]).0@,
        ) && self@[self.pairs()[i].0@] == self.pairs()[i].1 by {
            lemma_slot_unique(self.slots@, i);
        }
        assert forall|k: K::V| #[trigger] self@.contains_key(k) implies exists|i: int|
            0 <= i < self.pairs().len() && #[trigger] self.pairs()[i].0@ == k by {
            let i = slot_of(self.slots@, k);
            assert(self.pairs()[i].0@ == k);
        }
    }
}

/// Numbers are ordered by size and pairs by their first part, then by their
/// second; text is in the dictionary order of its bytes.
pub proof fn law_the_orders_of_keys(
    a: u32,
    b: u32,
    c: u64,
    d: u64,
    e: usize,
    f: usize,
    g: i32,
    h: i32,
    x: Seq<char>,
    y: Seq<char>,
)
    ensures
        <u32 as Key>::precedes(a, b) <==> a < b,
        <u64 as Key>::precedes(c, d) <==> c < d,
        <usize as Key>::precedes(e, f) <==> e < f,
        <i32 as Key>::precedes(g, h) <==> g < h,
        <(u64, i32) as Key>::precedes((c, g), (d, h)) <==> c < d || (c == d && g < h),
        <(u32, u64) as Key>::precedes((a, c), (b, d)) <==> a < b || (a == b && c < d),
        <String as Key>::precedes(x, y) <==> text::text_before(x, y),
{
}

/// A map gives for a key what is under it, and nothing for any other.
pub proof fn law_a_map_gives_what_it_holds<K: Key, T>(
    m: &SortedMap<K, T>,
    key: &K,
    r: Option<&T>,
    i: int,
)
    requires
        m.wf(),
        call_ensures(SortedMap::<K, T>::get, (m, key), r),
    ensures
        0 <= i < m.pairs().len() && m.pairs()[i].0@ == key@ ==> r is Some && *r->0
            == m.pairs()[i].1,
        (forall|j: int| 0 <= j < m.pairs().len() ==> #[trigger] m.pairs()[j].0@ != key@)
            ==> r is None,
{
    m.lemma_pairs();
}

/// What inserting, removing and draining do to a map.
pub proof fn law_what_changes_a_map_does<K: Key, T>(
    key: K,
    value: T,
    old_value: Option<T>,
    all: Vec<(K, T)>,
    other: K::V,
)
    requires
        other != key@,
    ensures
        forall|m: &mut SortedMap<K, T>|
            m.wf() && #[trigger] call_ensures(SortedMap::<K, T>::insert, (m, key, value), ()) ==> {
                let (before, after) = (m@, (*final(m))@);
                &&& after.contains_key(key@) && after[key@] == value
                &&& after.contains_key(other) <==> before.contains_key(other)
                &&& before.contains_key(other) ==> after[other] == before[other]
            },
        forall|m: &mut SortedMap<K, T>|
            m.wf() && #[trigger] call_ensures(SortedMap::<K, T>::remove, (m, &key), old_value)
                ==> {
                let (before, after) = (m@, (*final(m))@);
                &&& old_value is Some <==> before.contains_key(key@)
                &&& old_value is Some ==> old_value->0 == before[key@]
                &&& !after.contains_key(key@)
                &&& after.contains_key(other) <==> before.contains_key(other)
                &&& before.contains_key(other) ==> after[other] == before[other]
            },
        forall|m: &mut SortedMap<K, T>| #[trigger]
            call_ensures(SortedMap::<K, T>::drain, (m,), all) ==> all@ == m.pairs() && (
            *final(m)).pairs().len() == 0,
{
}

} // verus!
