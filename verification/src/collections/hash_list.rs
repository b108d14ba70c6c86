use std::collections::HashMap;

use vstd::prelude::*;

use crate::collections::key::HashKey;

verus! {

broadcast use vstd::std_specs::hash::group_hash_axioms;

/// A hash list: an ordered collection of distinct values in which every
/// value can be found, moved and removed by its key in constant time.
///
/// The entries live in an arena of slots linked both ways by slot index;
/// a hash map leads from the key of each value to its slot.
pub struct HashList<T> {
    map: HashMap<u64, usize>,
    items: Vec<T>,
    prevs: Vec<Option<usize>>,
    nexts: Vec<Option<usize>>,
    free: Vec<usize>,
    head: Option<usize>,
    tail: Option<usize>,
    order: Ghost<Seq<usize>>,
}

/// The slot that comes before position `k` of the slot order.
pub open spec fn prev_in(order: Seq<usize>, k: int) -> Option<usize> {
    if k <= 0 {
        None
    } else {
        Some(order[k - 1])
    }
}

/// The slot that comes after position `k` of the slot order.
pub open spec fn next_in(order: Seq<usize>, k: int) -> Option<usize> {
    if k + 1 >= order.len() {
        None
    } else {
        Some(order[k + 1])
    }
}

/// The value that comes before `x` in `s`, if `x` occurs in `s` and is not first.
pub open spec fn value_before<T>(s: Seq<T>, x: T) -> Option<T> {
    if exists|p: int| 1 <= p < s.len() && s[p] == x {
        Some(s[(choose|p: int| 1 <= p < s.len() && s[p] == x) - 1])
    } else {
        None
    }
}

/// The value that comes after `x` in `s`, if `x` occurs in `s` and is not last.
pub open spec fn value_after<T>(s: Seq<T>, x: T) -> Option<T> {
    if exists|p: int| 0 <= p < s.len() - 1 && s[p] == x {
        Some(s[(choose|p: int| 0 <= p < s.len() - 1 && s[p] == x) + 1])
    } else {
        None
    }
}


/// A value pushed to the back of a list is its last value, and popping it
/// from the back gives the list without it.
pub proof fn lemma_push_back_then_pop_back<T>(s: Seq<T>, x: T)
    ensures
        s.remove_value(x).push(x).last() == x,
        s.remove_value(x).push(x).drop_last() == s.remove_value(x),
        s.remove_value(x).push(x).contains(x),
{
    let t = s.remove_value(x).push(x);
    assert(t.drop_last() =~= s.remove_value(x));
    assert(t[t.len() - 1] == x);
}

/// A value pushed to the front of a list is its first value, and popping
/// it from the front gives the list without it.
pub proof fn lemma_push_front_then_pop_front<T>(s: Seq<T>, x: T)
    ensures
        (seq![x] + s.remove_value(x))[0] == x,
        (seq![x] + s.remove_value(x)).drop_first() == s.remove_value(x),
        (seq![x] + s.remove_value(x)).contains(x),
{
    let t = seq![x] + s.remove_value(x);
    assert(t.drop_first() =~= s.remove_value(x));
    assert(t[0] == x);
}

/// Removing `y` from a sequence keeps every other value in it.
proof fn lemma_remove_other<T>(s: Seq<T>, y: T, x: T)
    requires
        s.contains(x),
        x != y,
        s.no_duplicates(),
    ensures
        s.remove_value(y).contains(x),
        !s.remove_value(y).contains(y),
{
    s.index_of_first_ensures(y);
    let q = choose|q: int| 0 <= q < s.len() && s[q] == x;
    let t = s.remove_value(y);
    if s.contains(y) {
        let iy = s.index_of_first(y).unwrap();
        if q < iy {
            assert(t[q] == x);
        } else {
            assert(q != iy);
            assert(t[q - 1] == x);
        }
        if t.contains(y) {
            let r = choose|r: int| 0 <= r < t.len() && t[r] == y;
            if r < iy {
                assert(s[r] == y);
            } else {
                assert(s[r + 1] == y);
            }
        }
    } else {
        assert(t[q] == x);
    }
}

/// The sequence with `y` in the place of `x`, and without any other copy
/// of `y`.
pub open spec fn replaced<T>(s: Seq<T>, x: T, y: T) -> Seq<T> {
    let t = if y != x {
        s.remove_value(y)
    } else {
        s
    };
    t.update(t.index_of(x), y)
}

/// The map leads from the key of every listed value to its slot, and to nothing else.
pub open spec fn index_ok<T: HashKey>(map: Map<u64, usize>, order: Seq<usize>, items: Seq<T>) -> bool {
    &&& map.dom().finite()
    &&& map.dom().len() == order.len()
    &&& forall|k: int|
        0 <= k < order.len() ==> {
            let key = (#[trigger] items[order[k] as int]).key_of();
            &&& map.contains_key(key)
            &&& map[key] == order[k]
        }
    &&& forall|key: u64| #[trigger]
        map.contains_key(key) ==> {
            &&& order.contains(map[key])
            &&& items[map[key] as int].key_of() == key
        }
}

/// The free slots are distinct, exist, and are not linked in.
pub open spec fn free_slots_ok(free: Seq<usize>, order: Seq<usize>, n: nat) -> bool {
    &&& free.no_duplicates()
    &&& forall|j: int|
        0 <= j < free.len() ==> {
            &&& #[trigger] free[j] < n
            &&& !order.contains(free[j])
        }
}

/// Indexing a fresh value whose slot was linked in at the back keeps the index consistent.
proof fn lemma_index_push<T: HashKey>(
    map: Map<u64, usize>,
    order: Seq<usize>,
    items: Seq<T>,
    j: usize,
    k: u64,
)
    requires
        index_ok(map, order, items),
        !map.contains_key(k),
        j < items.len(),
        items[j as int].key_of() == k,
        !order.contains(j),
    ensures
        index_ok(map.insert(k, j), order.push(j), items),
{
    let m2 = map.insert(k, j);
    let o2 = order.push(j);
    assert(m2.dom() =~= map.dom().insert(k));
    assert forall|q: int| 0 <= q < o2.len() implies {
        let key = (#[trigger] items[o2[q] as int]).key_of();
        &&& m2.contains_key(key)
        &&& m2[key] == o2[q]
    } by {
        if q < order.len() {
            assert(o2[q] == order[q]);
            let key = items[order[q] as int].key_of();
            assert(map.contains_key(key));
        }
    }
    assert forall|key: u64| #[trigger] m2.contains_key(key) implies {
        &&& o2.contains(m2[key])
        &&& items[m2[key] as int].key_of() == key
    } by {
        if key == k {
            assert(o2[order.len() as int] == j);
        } else {
            let q = choose|q: int| 0 <= q < order.len() && order[q] == map[key];
            assert(o2[q] == order[q]);
        }
    }
}

/// Indexing a fresh value whose slot was linked in at the front keeps the index consistent.
proof fn lemma_index_prepend<T: HashKey>(
    map: Map<u64, usize>,
    order: Seq<usize>,
    items: Seq<T>,
    j: usize,
    k: u64,
)
    requires
        index_ok(map, order, items),
        !map.contains_key(k),
        j < items.len(),
        items[j as int].key_of() == k,
        !order.contains(j),
    ensures
        index_ok(map.insert(k, j), seq![j] + order, items),
{
    let m2 = map.insert(k, j);
    let o2 = seq![j] + order;
    assert(m2.dom() =~= map.dom().insert(k));
    assert forall|q: int| 0 <= q < o2.len() implies {
        let key = (#[trigger] items[o2[q] as int]).key_of();
        &&& m2.contains_key(key)
        &&& m2[key] == o2[q]
    } by {
        if q > 0 {
            assert(o2[q] == order[q - 1]);
            let key = items[order[q - 1] as int].key_of();
            assert(map.contains_key(key));
        }
    }
    assert forall|key: u64| #[trigger] m2.contains_key(key) implies {
        &&& o2.contains(m2[key])
        &&& items[m2[key] as int].key_of() == key
    } by {
        if key == k {
            assert(o2[0] == j);
        } else {
            let q = choose|q: int| 0 <= q < order.len() && order[q] == map[key];
            assert(o2[q + 1] == order[q]);
        }
    }
}

impl<T: HashKey> HashList<T> {
    /// The values of the list, front to back.
    pub closed spec fn view(&self) -> Seq<T> {
        self.order@.map_values(|i: usize| self.items@[i as int])
    }

    spec fn links_ok(&self) -> bool {
        &&& self.items@.len() == self.prevs@.len()
        &&& self.items@.len() == self.nexts@.len()
        &&& forall|k: int| 0 <= k < self.order@.len() ==> #[trigger] self.order@[k] < self.items@.len()
        &&& self.order@.no_duplicates()
        &&& forall|k: int|
            0 <= k < self.order@.len() ==> self.prevs@[#[trigger] self.order@[k] as int]
                == prev_in(self.order@, k)
        &&& forall|k: int|
            0 <= k < self.order@.len() ==> self.nexts@[#[trigger] self.order@[k] as int]
                == next_in(self.order@, k)
        &&& self.head == (if self.order@.len() == 0 {
            None
        } else {
            Some(self.order@[0])
        })
        &&& self.tail == (if self.order@.len() == 0 {
            None
        } else {
            Some(self.order@.last())
        })
    }

    spec fn map_ok(&self) -> bool {
        index_ok(self.map@, self.order@, self.items@)
    }

    spec fn free_ok(&self) -> bool {
        free_slots_ok(self.free@, self.order@, self.items@.len())
    }

    /// The list's internal links, index and free slots are consistent.
    pub closed spec fn wf(&self) -> bool {
        &&& self.links_ok()
        &&& self.map_ok()
        &&& self.free_ok()
    }

    proof fn lemma_view_no_duplicates(&self)
        requires
            self.wf(),
        ensures
            self@.no_duplicates(),
            self@.len() == self.order@.len(),
    {
        assert forall|a: int, b: int|
            0 <= a < self@.len() && 0 <= b < self@.len() && a != b implies self@[a] != self@[b] by {
            if self@[a] == self@[b] {
                let ka = self.items@[self.order@[a] as int];
                let kb = self.items@[self.order@[b] as int];
                assert(self.map@[ka.key_of()] == self.order@[a]);
                assert(self.map@[kb.key_of()] == self.order@[b]);
            }
        }
    }

    /// The position in the slot order of a slot that the map names.
    proof fn lemma_position_of(&self, key: u64) -> (p: int)
        requires
            self.wf(),
            self.map@.contains_key(key),
        ensures
            0 <= p < self.order@.len(),
            self.order@[p] == self.map@[key],
            self@[p].key_of() == key,
    {
        let i = self.map@[key];
        choose|p: int| 0 <= p < self.order@.len() && self.order@[p] == i
    }

    /// A value is in the list exactly when its key is in the map.
    proof fn lemma_contains_key(&self, x: T)
        requires
            self.wf(),
        ensures
            self@.contains(x) <==> self.map@.contains_key(x.key_of()),
    {
        if self@.contains(x) {
            let p = choose|p: int| 0 <= p < self@.len() && self@[p] == x;
            assert(self.items@[self.order@[p] as int] == x);
        }
        if self.map@.contains_key(x.key_of()) {
            let p = self.lemma_position_of(x.key_of());
            T::lemma_key_injective(self@[p], x);
            assert(self@.contains(x));
        }
    }


    /// Unlinks the slot at position `p` of the slot order.
    fn detach(&mut self, i: usize, Ghost(p): Ghost<int>)
        requires
            old(self).links_ok(),
            0 <= p < old(self).order@.len(),
            old(self).order@[p] == i,
        ensures
            final(self).links_ok(),
            final(self).order@ == old(self).order@.remove(p),
            final(self).items@ == old(self).items@,
            final(self).map@ == old(self).map@,
            final(self).free@ == old(self).free@,
    {
        let ghost o = self.order@;
        let prev = self.prevs[i];
        let next = self.nexts[i];
        assert(prev == prev_in(o, p));
        assert(next == next_in(o, p));
        if let Some(pv) = prev {
            self.nexts.set(pv, next);
        }
        if let Some(nx) = next {
            self.prevs.set(nx, prev);
        }
        match self.head {
            Some(h) => {
                if h == i {
                    self.head = next;
                }
            },
            None => {},
        }
        match self.tail {
            Some(t) => {
                if t == i {
                    self.tail = prev;
                }
            },
            None => {},
        }
        self.order = Ghost(o.remove(p));
        proof {
            let o2 = self.order@;
            assert(o2.len() == o.len() - 1);
            assert forall|k: int| 0 <= k < o2.len() implies #[trigger] o2[k] == (if k < p {
                o[k]
            } else {
                o[k + 1]
            }) by {}
            assert forall|k: int| 0 <= k < o2.len() implies #[trigger] o2[k] < self.items@.len() by {
                if k < p {
                    assert(o[k] < self.items@.len());
                } else {
                    assert(o[k + 1] < self.items@.len());
                }
            }
            assert forall|a: int, b: int|
                0 <= a < o2.len() && 0 <= b < o2.len() && a != b implies o2[a] != o2[b] by {
                let a1 = if a < p { a } else { a + 1 };
                let b1 = if b < p { b } else { b + 1 };
                assert(o2[a] == o[a1]);
                assert(o2[b] == o[b1]);
            }
            assert forall|k: int| 0 <= k < o2.len() implies self.prevs@[#[trigger] o2[k] as int]
                == prev_in(o2, k) && self.nexts@[o2[k] as int] == next_in(o2, k) by {
                let k1 = if k < p { k } else { k + 1 };
                assert(o2[k] == o[k1]);
                assert(o[k1] != i);
                if k1 > 0 {
                    assert(o[k1 - 1] != o[k1]);
                }
                if k1 + 1 < o.len() {
                    assert(o[k1 + 1] != o[k1]);
                }
                if p > 0 {
                    assert(o[p - 1] != o[p]);
                }
                if p + 1 < o.len() {
                    assert(o[p + 1] != o[p]);
                }
            }
        }
    }

    /// Links slot `j` in after the last slot.
    fn attach_back(&mut self, j: usize)
        requires
            old(self).links_ok(),
            j < old(self).items@.len(),
            !old(self).order@.contains(j),
        ensures
            final(self).links_ok(),
            final(self).order@ == old(self).order@.push(j),
            final(self).items@ == old(self).items@,
            final(self).map@ == old(self).map@,
            final(self).free@ == old(self).free@,
    {
        let ghost o = self.order@;
        let tail = self.tail;
        self.prevs.set(j, tail);
        self.nexts.set(j, None);
        match tail {
            Some(t) => {
                self.nexts.set(t, Some(j));
            },
            None => {
                self.head = Some(j);
            },
        }
        self.tail = Some(j);
        self.order = Ghost(o.push(j));
        proof {
            let o2 = self.order@;
            assert forall|k: int| 0 <= k < o2.len() implies self.prevs@[#[trigger] o2[k] as int]
                == prev_in(o2, k) && self.nexts@[o2[k] as int] == next_in(o2, k) by {
                if k < o.len() {
                    assert(o[k] != j);
                    if k + 1 < o.len() {
                        assert(o[k] != o[o.len() - 1]);
                    }
                }
            }
            assert forall|a: int, b: int|
                0 <= a < o2.len() && 0 <= b < o2.len() && a != b implies o2[a] != o2[b] by {
                if a < o.len() && b < o.len() {
                } else if a < o.len() {
                    assert(o[a] != j);
                } else if b < o.len() {
                    assert(o[b] != j);
                }
            }
            assert forall|k: int| 0 <= k < o2.len() implies #[trigger] o2[k] < self.items@.len() by {
                if k < o.len() {
                    assert(o[k] < self.items@.len());
                }
            }
        }
    }

    /// Links slot `j` in before the first slot.
    fn attach_front(&mut self, j: usize)
        requires
            old(self).links_ok(),
            j < old(self).items@.len(),
            !old(self).order@.contains(j),
        ensures
            final(self).links_ok(),
            final(self).order@ == seq![j] + old(self).order@,
            final(self).items@ == old(self).items@,
            final(self).map@ == old(self).map@,
            final(self).free@ == old(self).free@,
    {
        let ghost o = self.order@;
        let head = self.head;
        self.nexts.set(j, head);
        self.prevs.set(j, None);
        match head {
            Some(h) => {
                self.prevs.set(h, Some(j));
            },
            None => {
                self.tail = Some(j);
            },
        }
        self.head = Some(j);
        self.order = Ghost(seq![j] + o);
        proof {
            let o2 = self.order@;
            assert forall|k: int| 0 <= k < o2.len() implies #[trigger] o2[k] == (if k == 0 {
                j
            } else {
                o[k - 1]
            }) by {}
            assert forall|k: int| 0 <= k < o2.len() implies self.prevs@[#[trigger] o2[k] as int]
                == prev_in(o2, k) && self.nexts@[o2[k] as int] == next_in(o2, k) by {
                if k > 0 {
                    assert(o[k - 1] != j);
                    if k > 1 {
                        assert(o[k - 1] != o[0]);
                    }
                }
            }
            assert forall|a: int, b: int|
                0 <= a < o2.len() && 0 <= b < o2.len() && a != b implies o2[a] != o2[b] by {
                if a > 0 && b > 0 {
                } else if a > 0 {
                    assert(o[a - 1] != j);
                } else if b > 0 {
                    assert(o[b - 1] != j);
                }
            }
            assert forall|k: int| 0 <= k < o2.len() implies #[trigger] o2[k] < self.items@.len() by {
                if k > 0 {
                    assert(o[k - 1] < self.items@.len());
                }
            }
            if o.len() > 0 {
                assert(o2.last() == o.last());
            }
        }
    }


    /// Stores `data` in a slot that is not linked in, and returns that slot.
    fn claim_slot(&mut self, data: T) -> (j: usize)
        requires
            old(self).wf(),
        ensures
            final(self).links_ok(),
            final(self).free_ok(),
            final(self).map@ == old(self).map@,
            final(self).order@ == old(self).order@,
            final(self)@ == old(self)@,
            j < final(self).items@.len(),
            final(self).items@[j as int] == data,
            !final(self).order@.contains(j),
            !final(self).free@.contains(j),
            final(self).map_ok(),
            forall|x: int|
                0 <= x < old(self).items@.len() && x != j ==> final(self).items@[x]
                    == old(self).items@[x],
    {
        let j = match self.free.pop() {
            Some(j) => {
                proof {
                    assert(old(self).free@[old(self).free@.len() - 1] == j);
                }
                self.items.set(j, data);
                self.prevs.set(j, None);
                self.nexts.set(j, None);
                j
            },
            None => {
                let j = self.items.len();
                self.items.push(data);
                self.prevs.push(None);
                self.nexts.push(None);
                proof {
                    if self.order@.contains(j) {
                        let k = choose|k: int| 0 <= k < self.order@.len() && self.order@[k] == j;
                        assert(old(self).order@[k] < old(self).items@.len());
                    }
                }
                j
            },
        };
        proof {
            let o = self.order@;
            assert forall|k: int| 0 <= k < o.len() implies self.prevs@[#[trigger] o[k] as int]
                == prev_in(o, k) && self.nexts@[o[k] as int] == next_in(o, k) by {
                assert(o[k] != j);
            }
            assert forall|k: int| 0 <= k < o.len() implies #[trigger] o[k] < self.items@.len() by {
                assert(old(self).order@[k] < old(self).items@.len());
            }
            assert forall|jj: int|
                0 <= jj < self.free@.len() implies #[trigger] self.free@[jj] < self.items@.len()
                && !self.order@.contains(self.free@[jj]) by {
                assert(self.free@[jj] == old(self).free@[jj]);
            }
            assert forall|k: int| 0 <= k < o.len() implies #[trigger] self.items@[o[k] as int]
                == old(self).items@[o[k] as int] by {
                assert(o[k] != j);
                assert(o[k] < old(self).items@.len());
            }
            assert(self@ =~= old(self)@);
        }
        j
    }

    /// Removes the value with key `k` from the list, if there is one.
    #[verifier::rlimit(30)]
    fn take_key(&mut self, k: u64) -> (r: Option<T>)
        requires
            old(self).wf(),
        ensures
            final(self).wf(),
            !final(self).map@.contains_key(k),
            match r {
                Some(x) => {
                    &&& x.key_of() == k
                    &&& old(self)@.contains(x)
                    &&& final(self)@ == old(self)@.remove_value(x)
                },
                None => {
                    &&& !old(self).map@.contains_key(k)
                    &&& final(self)@ == old(self)@
                },
            },
    {
        let ghost p: int = if self.map@.contains_key(k) {
            self.lemma_position_of(k)
        } else {
            0
        };
        proof {
            self.lemma_view_no_duplicates();
        }
        match self.map.remove(&k) {
            Some(i) => {
                let ghost o = self.order@;
                let ghost items = self.items@;
                let ghost old_map = old(self).map@;
                self.detach(i, Ghost(p));
                proof {
                    assert forall|jj: int| 0 <= jj < self.free@.len() implies self.free@[jj]
                        != i by {
                        assert(!o.contains(self.free@[jj]));
                    }
                    assert(!self.order@.contains(i)) by {
                        if self.order@.contains(i) {
                            let q = choose|q: int| 0 <= q < self.order@.len() && self.order@[q] == i;
                            let q1 = if q < p { q } else { q + 1 };
                            assert(o[q1] == i);
                        }
                    }
                }
                self.free.push(i);
                let x = self.items[i];
                proof {
                    let o2 = self.order@;
                    let v = old(self)@;
                    assert(v[p] == x);
                    v.index_of_first_ensures(x);
                    assert(v.remove_value(x) =~= v.remove(p));
                    assert(self@ =~= v.remove(p));
                    assert forall|q: int| 0 <= q < o2.len() implies {
                        let key = (#[trigger] self.items@[o2[q] as int]).key_of();
                        &&& self.map@.contains_key(key)
                        &&& self.map@[key] == o2[q]
                    } by {
                        let q1 = if q < p { q } else { q + 1 };
                        assert(o2[q] == o[q1]);
                        assert(o[q1] != o[p]);
                        let key = items[o[q1] as int].key_of();
                        assert(old_map[key] == o[q1]);
                    }
                    assert forall|key: u64| #[trigger] self.map@.contains_key(key) implies {
                        &&& self.order@.contains(self.map@[key])
                        &&& self.items@[self.map@[key] as int].key_of() == key
                    } by {
                        assert(old_map.contains_key(key));
                        let q = choose|q: int| 0 <= q < o.len() && o[q] == old_map[key];
                        if q == p {
                            assert(key == k);
                        }
                        let q2 = if q < p { q } else { q - 1 };
                        assert(o2[q2] == o[q]);
                    }
                    assert forall|jj: int| 0 <= jj < self.free@.len() implies {
                        &&& #[trigger] self.free@[jj] < self.items@.len()
                        &&& !self.order@.contains(self.free@[jj])
                    } by {
                        if jj < self.free@.len() - 1 {
                            let f = self.free@[jj];
                            assert(!o.contains(f));
                            if self.order@.contains(f) {
                                let q = choose|q: int| 0 <= q < o2.len() && o2[q] == f;
                                let q1 = if q < p { q } else { q + 1 };
                                assert(o[q1] == f);
                            }
                        }
                    }
                }
                Some(x)
            },
            None => None,
        }
    }

    /// A free list that did not hold `j` stays valid once `j` is linked in.
    proof fn lemma_free_after_link(&self, o0: Seq<usize>, j: usize)
        requires
            free_slots_ok(self.free@, o0, self.items@.len()),
            !self.free@.contains(j),
            self.order@ == o0.push(j) || self.order@ == seq![j] + o0,
        ensures
            self.free_ok(),
    {
        assert forall|jj: int| 0 <= jj < self.free@.len() implies {
            &&& #[trigger] self.free@[jj] < self.items@.len()
            &&& !self.order@.contains(self.free@[jj])
        } by {
            let f = self.free@[jj];
            assert(f != j);
            if self.order@.contains(f) {
                let q = choose|q: int| 0 <= q < self.order@.len() && self.order@[q] == f;
                if self.order@ == o0.push(j) {
                    assert(o0[q] == f);
                } else {
                    assert(o0[q - 1] == f);
                }
            }
        }
    }

    /// Adds a value to the front of the list.
    ///
    /// If the list did not hold the value, `None` is returned. If it did,
    /// the old entry is removed, the value is put at the front and the old
    /// entry is returned.
    pub fn push_front(&mut self, data: T) -> (r: Option<T>)
        requires
            old(self).wf(),
        ensures
            final(self).wf(),
            final(self)@ == seq![data] + old(self)@.remove_value(data),
            r == (if old(self)@.contains(data) {
                Some(data)
            } else {
                None
            }),
    {
        proof {
            self.lemma_contains_key(data);
            old(self)@.index_of_first_ensures(data);
        }
        let k = data.key();
        let old_data = self.take_key(k);
        proof {
            if let Some(x) = old_data {
                T::lemma_key_injective(x, data);
            }
        }
        let ghost mid = self@;
        let j = self.claim_slot(data);
        let ghost m0 = self.map@;
        let ghost o0 = self.order@;
        self.attach_front(j);
        self.map.insert(k, j);
        proof {
            lemma_index_prepend(m0, o0, self.items@, j, k);
            self.lemma_free_after_link(o0, j);
            assert(self@ =~= seq![data] + mid);
        }
        old_data
    }

    /// Adds a value to the back of the list.
    ///
    /// If the list did not hold the value, `None` is returned. If it did,
    /// the old entry is removed, the value is put at the back and the old
    /// entry is returned.
    pub fn push_back(&mut self, data: T) -> (r: Option<T>)
        requires
            old(self).wf(),
        ensures
            final(self).wf(),
            final(self)@ == old(self)@.remove_value(data).push(data),
            r == (if old(self)@.contains(data) {
                Some(data)
            } else {
                None
            }),
    {
        proof {
            self.lemma_contains_key(data);
            old(self)@.index_of_first_ensures(data);
        }
        let k = data.key();
        let old_data = self.take_key(k);
        proof {
            if let Some(x) = old_data {
                T::lemma_key_injective(x, data);
            }
        }
        let ghost mid = self@;
        let j = self.claim_slot(data);
        let ghost m0 = self.map@;
        let ghost o0 = self.order@;
        self.attach_back(j);
        self.map.insert(k, j);
        proof {
            lemma_index_push(m0, o0, self.items@, j, k);
            self.lemma_free_after_link(o0, j);
            assert(self@ =~= mid.push(data));
        }
        old_data
    }


    /// Puts `y` in the place of the value in slot `i`, at position `p` of
    /// the slot order; `y` keeps that value's key or has a key that the
    /// list does not hold.
    fn replace_slot(&mut self, i: usize, y: T, Ghost(p): Ghost<int>)
        requires
            old(self).wf(),
            0 <= p < old(self).order@.len(),
            old(self).order@[p] == i,
            y.key_of() == old(self).items@[i as int].key_of() || !old(self).map@.contains_key(
                y.key_of(),
            ),
        ensures
            final(self).wf(),
            final(self)@ == old(self)@.update(p, y),
    {
        proof {
            assert(old(self).order@[p] < old(self).items@.len());
        }
        let k = self.items[i].key();
        let ky = y.key();
        self.items.set(i, y);
        if ky != k {
            self.map.remove(&k);
            self.map.insert(ky, i);
        }
        proof {
            let o = self.order@;
            let items0 = old(self).items@;
            let items = self.items@;
            let m0 = old(self).map@;
            let m = self.map@;
            assert(m0.contains_key(k) && m0[k] == i) by {
                assert(items0[o[p] as int].key_of() == k);
            }
            assert forall|q: int| 0 <= q < o.len() implies {
                let key = (#[trigger] items[o[q] as int]).key_of();
                &&& m.contains_key(key)
                &&& m[key] == o[q]
            } by {
                if q != p {
                    assert(o[q] != o[p]);
                    let kq = items0[o[q] as int].key_of();
                    assert(m0.contains_key(kq) && m0[kq] == o[q]);
                    assert(kq != k);
                }
            }
            assert forall|key: u64| #[trigger] m.contains_key(key) implies {
                &&& o.contains(m[key])
                &&& items[m[key] as int].key_of() == key
            } by {
                if key == ky {
                    assert(o[p] == i);
                } else {
                    assert(m0.contains_key(key) && key != k);
                    let j = m0[key];
                    assert(items0[j as int].key_of() == key);
                    assert(j != i);
                }
            }
            if ky != k {
                assert(m.dom() =~= m0.dom().remove(k).insert(ky));
            } else {
                assert(m.dom() =~= m0.dom());
            }
            assert(self@ =~= old(self)@.update(p, y)) by {
                assert forall|q: int| 0 <= q < o.len() implies #[trigger] self@[q] == old(self)@.update(
                    p,
                    y,
                )[q] by {
                    if q != p {
                        assert(o[q] != o[p]);
                    }
                }
            }
        }
    }

    /// Applies `f` to the value equal to `key`: `f`'s result takes the
    /// value's place in the list. A value already in the list that equals
    /// the result is removed first. Does nothing if the list does not hold
    /// `key`.
    #[verifier::rlimit(30)]
    pub fn update<F: Fn(T) -> T>(&mut self, key: &T, f: F)
        requires
            old(self).wf(),
            forall|x: T| f.requires((x,)),
        ensures
            final(self).wf(),
            !old(self)@.contains(*key) ==> final(self)@ == old(self)@,
            old(self)@.contains(*key) ==> exists|y: T|
                f.ensures((*key,), y) && final(self)@ == replaced(old(self)@, *key, y),
    {
        proof {
            self.lemma_contains_key(*key);
        }
        let k = key.key();
        let x = match self.map.get(&k) {
            Some(i) => self.items[*i],
            None => {
                return ;
            },
        };
        proof {
            let p = self.lemma_position_of(k);
            T::lemma_key_injective(x, *key);
        }
        proof {
            self.lemma_view_no_duplicates();
        }
        let y = f(x);
        let ghost s0 = self@;
        proof {
            assert(f.ensures((*key,), y));
        }
        if y.key() != k {
            self.remove(&y);
            proof {
                lemma_remove_other(s0, y, *key);
                assert(y != *key);
            }
        } else {
            proof {
                T::lemma_key_injective(y, *key);
            }
        }
        let ghost t = self@;
        proof {
            assert(t == (if y != *key {
                s0.remove_value(y)
            } else {
                s0
            }));
        }
        proof {
            self.lemma_contains_key(*key);
        }
        let i = match self.map.get(&k) {
            Some(i) => *i,
            None => {
                return ;
            },
        };
        let ghost p = self.lemma_position_of(k);
        proof {
            self.lemma_contains_key(y);
            self.lemma_view_no_duplicates();
            assert(self.items@[i as int].key_of() == k);
            T::lemma_key_injective(self@[p], *key);
            assert(self@.index_of(*key) == p) by {
                let j = self@.index_of(*key);
                assert(self@[p] == *key);
                assert(0 <= j < self@.len() && self@[j] == *key);
            }
        }
        self.replace_slot(i, y, Ghost(p));
        proof {
            assert(self@ == replaced(s0, *key, y));
        }
    }

    /// Removes the value equal to the supplied one and returns it, or
    /// returns `None` if the list does not hold it.
    pub fn remove(&mut self, key: &T) -> (r: Option<T>)
        requires
            old(self).wf(),
        ensures
            final(self).wf(),
            final(self)@ == old(self)@.remove_value(*key),
            r == (if old(self)@.contains(*key) {
                Some(*key)
            } else {
                None
            }),
    {
        proof {
            self.lemma_contains_key(*key);
            old(self)@.index_of_first_ensures(*key);
        }
        let r = self.take_key(key.key());
        proof {
            if let Some(x) = r {
                T::lemma_key_injective(x, *key);
            }
        }
        r
    }

    /// Removes the front value and returns it, or returns `None` if the
    /// list is empty.
    pub fn pop_front(&mut self) -> (r: Option<T>)
        requires
            old(self).wf(),
        ensures
            final(self).wf(),
            old(self)@.len() == 0 ==> r == None::<T> && final(self)@ == old(self)@,
            old(self)@.len() > 0 ==> r == Some(old(self)@[0]) && final(self)@
                == old(self)@.drop_first(),
    {
        proof {
            self.lemma_view_no_duplicates();
        }
        match self.head {
            Some(i) => {
                let x = self.items[i];
                proof {
                    assert(self@[0] == x);
                    self.lemma_contains_key(x);
                    old(self)@.index_of_first_ensures(x);
                    assert(old(self)@.remove_value(x) =~= old(self)@.drop_first());
                }
                let r = self.take_key(x.key());
                proof {
                    if let Some(y) = r {
                        T::lemma_key_injective(x, y);
                    }
                }
                r
            },
            None => None,
        }
    }

    /// Removes the back value and returns it, or returns `None` if the
    /// list is empty.
    pub fn pop_back(&mut self) -> (r: Option<T>)
        requires
            old(self).wf(),
        ensures
            final(self).wf(),
            old(self)@.len() == 0 ==> r == None::<T> && final(self)@ == old(self)@,
            old(self)@.len() > 0 ==> r == Some(old(self)@.last()) && final(self)@
                == old(self)@.drop_last(),
    {
        proof {
            self.lemma_view_no_duplicates();
        }
        match self.tail {
            Some(i) => {
                let x = self.items[i];
                proof {
                    let n = old(self)@.len() - 1;
                    assert(self@[n] == x);
                    self.lemma_contains_key(x);
                    old(self)@.index_of_first_ensures(x);
                    assert(old(self)@.remove_value(x) =~= old(self)@.drop_last());
                }
                let r = self.take_key(x.key());
                proof {
                    if let Some(y) = r {
                        T::lemma_key_injective(x, y);
                    }
                }
                r
            },
            None => None,
        }
    }

    /// Moves the value equal to the supplied one to the front of the list.
    /// Does nothing if the list does not hold it.
    pub fn move_front(&mut self, key: &T)
        requires
            old(self).wf(),
        ensures
            final(self).wf(),
            final(self)@ == (if old(self)@.contains(*key) {
                seq![*key] + old(self)@.remove_value(*key)
            } else {
                old(self)@
            }),
    {
        proof {
            old(self)@.index_of_first_ensures(*key);
        }
        if let Some(x) = self.remove(key) {
            proof {
                assert(!self@.contains(x)) by {
                    old(self)@.index_of_first_ensures(x);
                    self.lemma_view_no_duplicates();
                    if self@.contains(x) {
                        let q = choose|q: int| 0 <= q < self@.len() && self@[q] == x;
                        let p = old(self)@.index_of_first(x).unwrap();
                        let q1 = if q < p { q } else { q + 1 };
                        assert(old(self)@[q1] == x);
                    }
                }
                self@.index_of_first_ensures(x);
                assert(self@.remove_value(x) == self@);
            }
            self.push_front(x);
        }
    }

    /// Moves the value equal to the supplied one to the back of the list.
    /// Does nothing if the list does not hold it.
    pub fn move_back(&mut self, key: &T)
        requires
            old(self).wf(),
        ensures
            final(self).wf(),
            final(self)@ == (if old(self)@.contains(*key) {
                old(self)@.remove_value(*key).push(*key)
            } else {
                old(self)@
            }),
    {
        proof {
            old(self)@.index_of_first_ensures(*key);
        }
        if let Some(x) = self.remove(key) {
            proof {
                assert(!self@.contains(x)) by {
                    old(self)@.index_of_first_ensures(x);
                    self.lemma_view_no_duplicates();
                    if self@.contains(x) {
                        let q = choose|q: int| 0 <= q < self@.len() && self@[q] == x;
                        let p = old(self)@.index_of_first(x).unwrap();
                        let q1 = if q < p { q } else { q + 1 };
                        assert(old(self)@[q1] == x);
                    }
                }
                self@.index_of_first_ensures(x);
                assert(self@.remove_value(x) == self@);
            }
            self.push_back(x);
        }
    }

    /// Returns the value before the one equal to the supplied value, or
    /// `None` if there is no such value.
    pub fn before(&self, key: &T) -> (r: Option<&T>)
        requires
            self.wf(),
        ensures
            r == (match value_before(self@, *key) {
                Some(v) => Some(&v),
                None => None,
            }),
    {
        proof {
            self.lemma_contains_key(*key);
            self.lemma_view_no_duplicates();
        }
        let k = key.key();
        match self.map.get(&k) {
            Some(i) => {
                let ghost p = self.lemma_position_of(k);
                proof {
                    T::lemma_key_injective(self@[p], *key);
                }
                match self.prevs[*i] {
                    Some(pv) => {
                        proof {
                            assert(p >= 1);
                            let c = choose|c: int| 1 <= c < self@.len() && self@[c] == *key;
                            assert(c == p);
                        }
                        Some(&self.items[pv])
                    },
                    None => {
                        proof {
                            assert(p == 0);
                        }
                        None
                    },
                }
            },
            None => None,
        }
    }

    /// Returns the value after the one equal to the supplied value, or
    /// `None` if there is no such value.
    pub fn after(&self, key: &T) -> (r: Option<&T>)
        requires
            self.wf(),
        ensures
            r == (match value_after(self@, *key) {
                Some(v) => Some(&v),
                None => None,
            }),
    {
        proof {
            self.lemma_contains_key(*key);
            self.lemma_view_no_duplicates();
        }
        let k = key.key();
        match self.map.get(&k) {
            Some(i) => {
                let ghost p = self.lemma_position_of(k);
                proof {
                    T::lemma_key_injective(self@[p], *key);
                }
                match self.nexts[*i] {
                    Some(nx) => {
                        proof {
                            assert(p + 1 < self@.len());
                            let c = choose|c: int| 0 <= c < self@.len() - 1 && self@[c] == *key;
                            assert(c == p);
                        }
                        Some(&self.items[nx])
                    },
                    None => {
                        proof {
                            assert(p + 1 == self@.len());
                        }
                        None
                    },
                }
            },
            None => None,
        }
    }

    /// Returns the values of the list, front to back.
    pub fn iter(&self) -> (r: Vec<T>)
        requires
            self.wf(),
        ensures
            r@ == self@,
    {
        proof {
            self.lemma_view_no_duplicates();
        }
        let mut r: Vec<T> = Vec::new();
        let mut cur = self.head;
        let ghost n = self.order@.len();
        while cur.is_some()
            invariant
                self.wf(),
                n == self.order@.len(),
                self@.len() == n,
                r@.len() <= n,
                r@ == self@.take(r@.len() as int),
                cur == (if r@.len() < n {
                    Some(self.order@[r@.len() as int])
                } else {
                    None::<usize>
                }),
            decreases n - r@.len(),
        {
            let i = cur.unwrap();
            let ghost k = r@.len() as int;
            r.push(self.items[i]);
            cur = self.nexts[i];
            proof {
                assert(self.nexts@[self.order@[k] as int] == next_in(self.order@, k));
                assert(r@ =~= self@.take(r@.len() as int));
            }
        }
        proof {
            assert(r@ =~= self@);
        }
        r
    }

    /// Removes every value from the list.
    pub fn clear(&mut self)
        requires
            old(self).wf(),
        ensures
            final(self).wf(),
            final(self)@ == Seq::<T>::empty(),
    {
        *self = HashList::new();
    }

    /// Creates an empty hash list.
    pub fn new() -> (list: Self)
        ensures
            list.wf(),
            list@ == Seq::<T>::empty(),
    {
        let list = HashList {
            map: HashMap::new(),
            items: Vec::new(),
            prevs: Vec::new(),
            nexts: Vec::new(),
            free: Vec::new(),
            head: None,
            tail: None,
            order: Ghost(Seq::empty()),
        };
        assert(list@ =~= Seq::<T>::empty());
        list
    }

    /// Returns `true` if the list holds no values.
    pub fn is_empty(&self) -> (r: bool)
        requires
            self.wf(),
        ensures
            r == (self@.len() == 0),
    {
        proof {
            self.lemma_view_no_duplicates();
        }
        self.head.is_none()
    }

    /// Returns the number of values in the list.
    pub fn len(&self) -> (r: usize)
        requires
            self.wf(),
        ensures
            r == self@.len(),
    {
        proof {
            self.lemma_view_no_duplicates();
        }
        self.map.len()
    }

    /// Returns the front value, or `None` if the list is empty.
    pub fn front(&self) -> (r: Option<&T>)
        requires
            self.wf(),
        ensures
            r == (if self@.len() == 0 {
                None
            } else {
                Some(&self@[0])
            }),
    {
        proof {
            self.lemma_view_no_duplicates();
        }
        match self.head {
            Some(i) => Some(&self.items[i]),
            None => None,
        }
    }

    /// Returns the back value, or `None` if the list is empty.
    pub fn back(&self) -> (r: Option<&T>)
        requires
            self.wf(),
        ensures
            r == (if self@.len() == 0 {
                None
            } else {
                Some(&self@.last())
            }),
    {
        proof {
            self.lemma_view_no_duplicates();
        }
        match self.tail {
            Some(i) => Some(&self.items[i]),
            None => None,
        }
    }

    /// Returns `true` if the list holds the supplied value.
    pub fn contains(&self, key: &T) -> (r: bool)
        requires
            self.wf(),
        ensures
            r == self@.contains(*key),
    {
        proof {
            self.lemma_contains_key(*key);
        }
        let k = key.key();
        self.map.contains_key(&k)
    }

    /// Returns the stored value equal to the supplied one, or `None`.
    pub fn get(&self, key: &T) -> (r: Option<&T>)
        requires
            self.wf(),
        ensures
            r == (if self@.contains(*key) {
                Some(key)
            } else {
                None
            }),
    {
        proof {
            self.lemma_contains_key(*key);
        }
        let k = key.key();
        match self.map.get(&k) {
            Some(i) => {
                proof {
                    let p = self.lemma_position_of(k);
                    T::lemma_key_injective(self@[p], *key);
                }
                Some(&self.items[*i])
            },
            None => None,
        }
    }
}

impl<T: HashKey> Default for HashList<T> {
    fn default() -> (list: Self)
        ensures
            list.wf(),
            list@ == Seq::<T>::empty(),
    {
        HashList::new()
    }
}

} // verus!
