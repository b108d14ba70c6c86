use std::collections::HashMap;

use vstd::prelude::*;

use crate::collections::key::HashKey;

verus! {

broadcast use vstd::std_specs::hash::group_hash_axioms;

/// A hash graph: distinct values, found by their key, joined by weighted
/// directed connections.
///
/// The values live in slots; a hash map leads from the key of each value
/// to its slot, and each connection names the slots it joins.
pub struct HashGraph<T, W> {
    index: HashMap<u64, usize>,
    nodes: Vec<T>,
    edges: Vec<(usize, usize, W)>,
    conns: Ghost<Map<(u64, u64), W>>,
}

/// The keys that connection `e` joins.
pub open spec fn edge_keys<T: HashKey, W>(nodes: Seq<T>, e: (usize, usize, W)) -> (u64, u64) {
    (nodes[e.0 as int].key_of(), nodes[e.1 as int].key_of())
}

/// The connections agree with the map of connections: each joins two
/// slots and carries the weight the map gives its keys, no two join the
/// same slots, and every connection of the map is among them.
pub open spec fn edges_ok<T: HashKey, W>(
    nodes: Seq<T>,
    edges: Seq<(usize, usize, W)>,
    conns: Map<(u64, u64), W>,
) -> bool {
    &&& forall|q: int|
        0 <= q < edges.len() ==> {
            let e = #[trigger] edges[q];
            &&& e.0 < nodes.len()
            &&& e.1 < nodes.len()
            &&& conns.contains_key(edge_keys(nodes, e))
            &&& conns[edge_keys(nodes, e)] == e.2
        }
    &&& forall|a: int, b: int|
        0 <= a < b < edges.len() ==> (#[trigger] edges[a]).0 != (#[trigger] edges[b]).0 || edges[a].1
            != edges[b].1
    &&& conns_covered(nodes, edges, conns)
}

/// Every connection of the map is among the connections.
#[verifier::opaque]
pub open spec fn conns_covered<T: HashKey, W>(
    nodes: Seq<T>,
    edges: Seq<(usize, usize, W)>,
    conns: Map<(u64, u64), W>,
) -> bool {
    forall|p: (u64, u64)|
        #[trigger] conns.contains_key(p) ==> exists|q: int|
            0 <= q < edges.len() && edge_keys(nodes, #[trigger] edges[q]) == p
}

/// A walk along the connections of a graph from key `a` to key `b`: keys
/// of the graph, starting at `a`, each connected to the next, ending at `b`.
pub open spec fn walk_between<T, W>(
    nodes: Map<u64, T>,
    conns: Map<(u64, u64), W>,
    w: Seq<u64>,
    a: u64,
    b: u64,
) -> bool {
    &&& w.len() >= 1
    &&& nodes.contains_key(w[0])
    &&& w[0] == a
    &&& w.last() == b
    &&& forall|i: int| 0 <= i < w.len() - 1 ==> conns.contains_key(#[trigger] link(w, i))
}

/// The keys of a sequence of values.
pub open spec fn keys_of<T: HashKey>(p: Seq<&T>) -> Seq<u64> {
    p.map_values(|x: &T| x.key_of())
}

impl<T: HashKey, W: Copy> HashGraph<T, W> {
    /// The values of the graph, by key.
    pub closed spec fn nodes_view(&self) -> Map<u64, T> {
        Map::new(
            |k: u64| self.index@.contains_key(k),
            |k: u64| self.nodes@[self.index@[k] as int],
        )
    }

    /// The connections of the graph: from the key of one value to the key
    /// of another, with their weight.
    pub closed spec fn conns_view(&self) -> Map<(u64, u64), W> {
        self.conns@
    }

    pub closed spec fn wf(&self) -> bool {
        &&& forall|i: int, j: int|
            0 <= i < j < self.nodes@.len() ==> (#[trigger] self.nodes@[i]).key_of()
                != (#[trigger] self.nodes@[j]).key_of()
        &&& forall|i: int|
            0 <= i < self.nodes@.len() ==> {
                let k = (#[trigger] self.nodes@[i]).key_of();
                self.index@.contains_key(k) && self.index@[k] == i
            }
        &&& forall|k: u64|
            #[trigger] self.index@.contains_key(k) ==> {
                &&& self.index@[k] < self.nodes@.len()
                &&& self.nodes@[self.index@[k] as int].key_of() == k
            }
        &&& edges_ok(self.nodes@, self.edges@, self.conns@)
    }

    /// Every connection joins two values of the graph, and the graph
    /// holds finitely many values.
    proof fn lemma_wf(&self)
        requires
            self.wf(),
        ensures
            self.nodes_view().dom().finite(),
            self.nodes_view().dom().len() == self.nodes@.len(),
            forall|p: (u64, u64)|
                #[trigger] self.conns_view().contains_key(p) ==> self.nodes_view().contains_key(p.0)
                    && self.nodes_view().contains_key(p.1),
            forall|k: u64|
                #[trigger] self.nodes_view().contains_key(k) ==> self.nodes_view()[k].key_of() == k,
    {
        reveal(conns_covered);
        assert(self.nodes_view().dom() =~= self.index@.dom());
        assert forall|p: (u64, u64)| #[trigger] self.conns_view().contains_key(p) implies self.nodes_view().contains_key(
            p.0,
        ) && self.nodes_view().contains_key(p.1) by {
            let q = choose|q: int|
                0 <= q < self.edges@.len() && edge_keys(self.nodes@, #[trigger] self.edges@[q]) == p;
            let e = self.edges@[q];
            assert(self.nodes@[e.0 as int].key_of() == p.0);
            assert(self.nodes@[e.1 as int].key_of() == p.1);
        }
        lemma_index_len(self.index@, self.nodes@);
    }

    /// Creates an empty graph.
    pub fn new() -> (r: Self)
        ensures
            r.wf(),
            r.nodes_view() == Map::<u64, T>::empty(),
            r.conns_view() == Map::<(u64, u64), W>::empty(),
    {
        let r = HashGraph {
            index: HashMap::new(),
            nodes: Vec::new(),
            edges: Vec::new(),
            conns: Ghost(Map::empty()),
        };
        proof {
            reveal(conns_covered);
            assert(r.nodes_view() =~= Map::<u64, T>::empty());
        }
        r
    }

    /// Returns `true` if the graph holds no value.
    pub fn is_empty(&self) -> (r: bool)
        requires
            self.wf(),
        ensures
            r == (self.nodes_view().dom().len() == 0),
    {
        proof {
            self.lemma_wf();
        }
        self.nodes.len() == 0
    }

    /// Returns the number of values in the graph.
    pub fn len(&self) -> (r: usize)
        requires
            self.wf(),
        ensures
            r == self.nodes_view().dom().len(),
    {
        proof {
            self.lemma_wf();
        }
        self.nodes.len()
    }

    /// Inserts a value with no connections. If the graph held a value with
    /// the same key, it is replaced, its connections from and to it are
    /// dropped, and it is returned.
    ///
    /// # Examples
    /// ```
    /// use kwik::collections::HashGraph;
    ///
    /// let mut graph = HashGraph::<u64, u64>::new();
    ///
    /// assert_eq!(graph.insert(1), None);
    /// assert_eq!(graph.insert(2), None);
    /// assert_eq!(graph.insert(2), Some(2));
    /// ```
    pub fn insert(&mut self, data: T) -> (r: Option<T>)
        requires
            old(self).wf(),
        ensures
            final(self).wf(),
            final(self).nodes_view() == old(self).nodes_view().insert(data.key_of(), data),
            final(self).conns_view() == Map::new(
                |p: (u64, u64)|
                    old(self).conns_view().contains_key(p) && p.0 != data.key_of() && p.1
                        != data.key_of(),
                |p: (u64, u64)| old(self).conns_view()[p],
            ),
            r == (if old(self).nodes_view().contains_key(data.key_of()) {
                Some(old(self).nodes_view()[data.key_of()])
            } else {
                None::<T>
            }),
    {
        let k = data.key();
        let ghost g = self.conns@;
        let ghost g2 = Map::new(
            |p: (u64, u64)| g.contains_key(p) && p.0 != k && p.1 != k,
            |p: (u64, u64)| g[p],
        );
        match self.index.get(&k) {
            Some(i) => {
                let i = *i;
                let old_data = self.nodes[i];
                self.nodes.set(i, data);
                proof {
                    assert forall|j: int| 0 <= j < self.nodes@.len() implies (#[trigger] self.nodes@[j]).key_of()
                        == old(self).nodes@[j].key_of() by {}
                }
                let kept = edges_without(&self.edges, i);
                proof {
                    lemma_drop_node(old(self).nodes@, self.nodes@, self.edges@, kept@, g, i, k);
                }
                self.edges = kept;
                proof {
                    self.conns@ = g2;
                    assert(self.nodes_view() =~= old(self).nodes_view().insert(k, data));
                    assert(old(self).nodes_view()[k] == old_data);
                }
                Some(old_data)
            },
            None => {
                let n = self.nodes.len();
                self.nodes.push(data);
                self.index.insert(k, n);
                proof {
                    assert forall|j: int| 0 <= j < n implies (#[trigger] old(self).nodes@[j]).key_of()
                        != k by {
                        let kk = old(self).nodes@[j].key_of();
                        assert(old(self).index@.contains_key(kk));
                    }
                    lemma_add_node(old(self).nodes@, data, self.edges@, g, k);
                    assert(g2 =~= g);
                    assert(self.nodes_view() =~= old(self).nodes_view().insert(k, data));
                }
                None
            },
        }
    }

    /// Finds the slot of the connection between two slots, if any.
    fn find_edge(&self, from: usize, to: usize) -> (r: Option<usize>)
        requires
            self.wf(),
        ensures
            match r {
                Some(q) => q < self.edges@.len() && self.edges@[q as int].0 == from
                    && self.edges@[q as int].1 == to,
                None => forall|q: int|
                    0 <= q < self.edges@.len() ==> (#[trigger] self.edges@[q]).0 != from
                        || self.edges@[q].1 != to,
            },
    {
        let n = self.edges.len();
        let mut q: usize = 0;
        while q < n
            invariant
                q <= n,
                n == self.edges@.len(),
                forall|c: int| 0 <= c < q ==> (#[trigger] self.edges@[c]).0 != from || self.edges@[c].1 != to,
            decreases n - q,
        {
            if self.edges[q].0 == from && self.edges[q].1 == to {
                return Some(q);
            }
            q = q + 1;
        }
        None
    }

    /// Connects the value with the key of `from` to the value with the key
    /// of `to` with the supplied weight. If the graph does not hold both,
    /// nothing changes; if they are connected already, the weight is
    /// replaced.
    ///
    /// # Examples
    /// ```
    /// use kwik::collections::HashGraph;
    ///
    /// let mut graph = HashGraph::<u64, u64>::new();
    ///
    /// graph.insert(1);
    /// graph.insert(2);
    ///
    /// graph.connect(&1, &2, 1);
    /// assert!(graph.is_connected(&1, &2));
    /// ```
    pub fn connect(&mut self, from: &T, to: &T, weight: W)
        requires
            old(self).wf(),
        ensures
            final(self).wf(),
            final(self).nodes_view() == old(self).nodes_view(),
            final(self).conns_view() == if old(self).nodes_view().contains_key(from.key_of())
                && old(self).nodes_view().contains_key(to.key_of()) {
                old(self).conns_view().insert((from.key_of(), to.key_of()), weight)
            } else {
                old(self).conns_view()
            },
    {
        let kf = from.key();
        let kt = to.key();
        let i = match self.index.get(&kf) {
            Some(i) => *i,
            None => {
                return ;
            },
        };
        let j = match self.index.get(&kt) {
            Some(j) => *j,
            None => {
                return ;
            },
        };
        let ghost g = self.conns@;
        let ghost pk = (kf, kt);
        match self.find_edge(i, j) {
            Some(q) => {
                self.edges.set(q, (i, j, weight));
                proof {
                    reveal(conns_covered);
                    self.conns@ = g.insert(pk, weight);
                    assert forall|c: int| 0 <= c < self.edges@.len() && c != q implies edge_keys(
                        self.nodes@,
                        #[trigger] self.edges@[c],
                    ) != pk by {
                        let ee = self.edges@[c];
                        if ee.0 == i && ee.1 == j {
                            if c < q {
                                assert(old(self).edges@[c] == ee);
                            } else {
                                assert(old(self).edges@[c] == ee);
                            }
                        }
                        if edge_keys(self.nodes@, ee) == pk {
                            assert(self.nodes@[ee.0 as int].key_of() == kf);
                            assert(self.nodes@[i as int].key_of() == kf);
                            assert(self.nodes@[ee.1 as int].key_of() == kt);
                            assert(self.nodes@[j as int].key_of() == kt);
                        }
                    }
                    assert forall|c: int| 0 <= c < self.edges@.len() implies {
                        let e = #[trigger] self.edges@[c];
                        &&& e.0 < self.nodes@.len()
                        &&& e.1 < self.nodes@.len()
                        &&& self.conns@.contains_key(edge_keys(self.nodes@, e))
                        &&& self.conns@[edge_keys(self.nodes@, e)] == e.2
                    } by {
                        if c != q {
                            assert(old(self).edges@[c] == self.edges@[c]);
                        }
                    }
                    assert forall|a: int, b: int|
                        0 <= a < b < self.edges@.len() implies (#[trigger] self.edges@[a]).0
                            != (#[trigger] self.edges@[b]).0 || self.edges@[a].1 != self.edges@[b].1 by {
                        assert(old(self).edges@[a].0 == self.edges@[a].0 && old(self).edges@[a].1
                            == self.edges@[a].1);
                        assert(old(self).edges@[b].0 == self.edges@[b].0 && old(self).edges@[b].1
                            == self.edges@[b].1);
                    }
                    assert forall|p: (u64, u64)| #[trigger] self.conns@.contains_key(p) implies exists|c: int|
                        0 <= c < self.edges@.len() && edge_keys(self.nodes@, #[trigger] self.edges@[c]) == p by {
                        if p == pk {
                            assert(edge_keys(self.nodes@, self.edges@[q as int]) == p);
                        } else {
                            let c = choose|c: int|
                                0 <= c < old(self).edges@.len() && edge_keys(old(self).nodes@, #[trigger] old(self).edges@[c]) == p;
                            if c == q {
                                assert(edge_keys(old(self).nodes@, old(self).edges@[c]) == pk);
                            }
                            assert(self.edges@[c] == old(self).edges@[c]);
                        }
                    }
                }
            },
            None => {
                self.edges.push((i, j, weight));
                proof {
                    reveal(conns_covered);
                    self.conns@ = g.insert(pk, weight);
                    let n = old(self).edges@.len();
                    assert forall|c: int| 0 <= c < n implies edge_keys(
                        self.nodes@,
                        #[trigger] self.edges@[c],
                    ) != pk by {
                        let ee = self.edges@[c];
                        assert(old(self).edges@[c] == ee);
                        if edge_keys(self.nodes@, ee) == pk {
                            assert(self.nodes@[ee.0 as int].key_of() == kf);
                            assert(self.nodes@[i as int].key_of() == kf);
                            assert(self.nodes@[ee.1 as int].key_of() == kt);
                            assert(self.nodes@[j as int].key_of() == kt);
                        }
                    }
                    assert forall|c: int| 0 <= c < self.edges@.len() implies {
                        let e = #[trigger] self.edges@[c];
                        &&& e.0 < self.nodes@.len()
                        &&& e.1 < self.nodes@.len()
                        &&& self.conns@.contains_key(edge_keys(self.nodes@, e))
                        &&& self.conns@[edge_keys(self.nodes@, e)] == e.2
                    } by {
                        if c < n {
                            assert(old(self).edges@[c] == self.edges@[c]);
                        }
                    }
                    assert forall|a: int, b: int|
                        0 <= a < b < self.edges@.len() implies (#[trigger] self.edges@[a]).0
                            != (#[trigger] self.edges@[b]).0 || self.edges@[a].1 != self.edges@[b].1 by {
                        assert(old(self).edges@[a] == self.edges@[a]);
                        if b < n {
                            assert(old(self).edges@[b] == self.edges@[b]);
                        }
                    }
                    assert forall|p: (u64, u64)| #[trigger] self.conns@.contains_key(p) implies exists|c: int|
                        0 <= c < self.edges@.len() && edge_keys(self.nodes@, #[trigger] self.edges@[c]) == p by {
                        if p == pk {
                            assert(edge_keys(self.nodes@, self.edges@[n as int]) == p);
                        } else {
                            let c = choose|c: int|
                                0 <= c < old(self).edges@.len() && edge_keys(old(self).nodes@, #[trigger] old(self).edges@[c]) == p;
                            assert(self.edges@[c] == old(self).edges@[c]);
                        }
                    }
                }
            },
        }
        proof {
            assert(self.nodes_view() =~= old(self).nodes_view());
        }
    }

    /// A walk between keys of the graph is a walk between their slots.
    proof fn lemma_key_walk(&self, w: Seq<u64>, a: u64, b: u64)
        requires
            self.wf(),
            walk_between(self.nodes_view(), self.conns_view(), w, a, b),
        ensures
            self.index@.contains_key(a),
            self.index@.contains_key(b),
            slot_walk_between(
                self.edges@,
                w.map_values(|k: u64| self.index@[k]),
                self.index@[a],
                self.index@[b],
            ),
            w.map_values(|k: u64| self.index@[k]).len() == w.len(),
    {
        reveal(conns_covered);
        let sw = w.map_values(|k: u64| self.index@[k]);
        assert forall|i: int| 0 <= i < sw.len() - 1 implies #[trigger] has_link(self.edges@, sw, i) by {
            assert(self.conns@.contains_key(link(w, i)));
            let c = choose|c: int|
                0 <= c < self.edges@.len() && edge_keys(self.nodes@, #[trigger] self.edges@[c]) == link(w, i);
            let e = self.edges@[c];
            assert(self.index@[self.nodes@[e.0 as int].key_of()] == e.0);
            assert(self.index@[self.nodes@[e.1 as int].key_of()] == e.1);
            assert(link(sw, i) == (e.0, e.1));
        }
        if w.len() > 1 {
            let i = w.len() - 2;
            assert(self.conns@.contains_key(link(w, i)));
            let c = choose|c: int|
                0 <= c < self.edges@.len() && edge_keys(self.nodes@, #[trigger] self.edges@[c]) == link(w, i);
            let e = self.edges@[c];
            assert(self.index@.contains_key(self.nodes@[e.1 as int].key_of()));
        }
    }

    /// A walk between slots is a walk between the keys of their values.
    proof fn lemma_slot_walk(&self, sw: Seq<usize>, s: usize, t: usize)
        requires
            self.wf(),
            slot_walk_between(self.edges@, sw, s, t),
            s < self.nodes@.len(),
        ensures
            walk_between(
                self.nodes_view(),
                self.conns_view(),
                sw.map_values(|i: usize| self.nodes@[i as int].key_of()),
                self.nodes@[s as int].key_of(),
                self.nodes@[t as int].key_of(),
            ),
    {
        let w = sw.map_values(|i: usize| self.nodes@[i as int].key_of());
        assert forall|i: int| 0 <= i < w.len() - 1 implies self.conns@.contains_key(
            #[trigger] link(w, i),
        ) by {
            assert(has_link(self.edges@, sw, i));
            let c = choose|c: int|
                0 <= c < self.edges@.len() && (#[trigger] self.edges@[c]).0 == sw[i] && self.edges@[c].1
                    == sw[i + 1];
            assert(edge_keys(self.nodes@, self.edges@[c]) == link(w, i));
        }
        assert(self.index@.contains_key(self.nodes@[s as int].key_of()));
    }

    /// Returns a shortest walk from the value with the key of `from` to the
    /// value with the key of `to`: the fewest values, each connected to the
    /// next, from the one to the other. Returns `None` if there is no such
    /// walk, or if the graph does not hold both.
    ///
    /// # Examples
    /// ```
    /// use kwik::collections::HashGraph;
    ///
    /// let mut graph = HashGraph::<u64, u64>::new();
    ///
    /// graph.insert(1);
    /// graph.insert(2);
    /// graph.insert(3);
    ///
    /// graph.connect(&1, &2, 1);
    /// graph.connect(&2, &3, 1);
    ///
    /// assert_eq!(graph.path(&1, &3), Some(vec![&1, &2, &3]));
    /// ```
    pub fn path(&self, from: &T, to: &T) -> (r: Option<Vec<&T>>)
        requires
            self.wf(),
        ensures
            match r {
                Some(p) => {
                    &&& walk_between(
                        self.nodes_view(),
                        self.conns_view(),
                        keys_of(p@),
                        from.key_of(),
                        to.key_of(),
                    )
                    &&& forall|i: int|
                        0 <= i < p@.len() ==> *p@[i] == self.nodes_view()[(#[trigger] p@[i]).key_of()]
                    &&& forall|w: Seq<u64>|
                        #[trigger] walk_between(
                            self.nodes_view(),
                            self.conns_view(),
                            w,
                            from.key_of(),
                            to.key_of(),
                        ) ==> p@.len() <= w.len()
                },
                None => forall|w: Seq<u64>|
                    !#[trigger] walk_between(
                        self.nodes_view(),
                        self.conns_view(),
                        w,
                        from.key_of(),
                        to.key_of(),
                    ),
            },
    {
        let kf = from.key();
        let kt = to.key();
        let s = match self.index.get(&kf) {
            Some(i) => *i,
            None => {
                proof {
                    assert forall|w: Seq<u64>|
                        !#[trigger] walk_between(self.nodes_view(), self.conns_view(), w, kf, kt) by {
                        if walk_between(self.nodes_view(), self.conns_view(), w, kf, kt) {
                            self.lemma_key_walk(w, kf, kt);
                        }
                    }
                }
                return None;
            },
        };
        let t = match self.index.get(&kt) {
            Some(i) => *i,
            None => {
                proof {
                    assert forall|w: Seq<u64>|
                        !#[trigger] walk_between(self.nodes_view(), self.conns_view(), w, kf, kt) by {
                        if walk_between(self.nodes_view(), self.conns_view(), w, kf, kt) {
                            self.lemma_key_walk(w, kf, kt);
                        }
                    }
                }
                return None;
            },
        };
        proof {
            assert forall|q: int| 0 <= q < self.edges@.len() implies (#[trigger] self.edges@[q]).0
                < self.nodes@.len() && self.edges@[q].1 < self.nodes@.len() by {}
        }
        match shortest_walk(&self.edges, self.nodes.len(), s, t) {
            None => {
                proof {
                    assert forall|w: Seq<u64>|
                        !#[trigger] walk_between(self.nodes_view(), self.conns_view(), w, kf, kt) by {
                        if walk_between(self.nodes_view(), self.conns_view(), w, kf, kt) {
                            self.lemma_key_walk(w, kf, kt);
                            let sw = w.map_values(|k: u64| self.index@[k]);
                            assert(slot_walk_between(self.edges@, sw, s, t));
                        }
                    }
                }
                None
            },
            Some(sp) => {
                let mut out: Vec<&T> = Vec::new();
                let m = sp.len();
                let mut i: usize = 0;
                while i < m
                    invariant
                        i <= m,
                        m == sp@.len(),
                        self.wf(),
                        slot_walk_between(self.edges@, sp@, s, t),
                        forall|q: int| 0 <= q < self.edges@.len() ==> (#[trigger] self.edges@[q]).0
                            < self.nodes@.len() && self.edges@[q].1 < self.nodes@.len(),
                        t < self.nodes@.len(),
                        out@.len() == i,
                        forall|j: int| 0 <= j < i ==> #[trigger] sp@[j] < self.nodes@.len(),
                        forall|j: int| 0 <= j < i ==> *out@[j] == self.nodes@[#[trigger] sp@[j] as int],
                    decreases m - i,
                {
                    proof {
                        if i + 1 < m {
                            assert(has_link(self.edges@, sp@, i as int));
                            let c = choose|c: int|
                                0 <= c < self.edges@.len() && (#[trigger] self.edges@[c]).0
                                    == link(sp@, i as int).0 && self.edges@[c].1 == link(sp@, i as int).1;
                            assert(self.edges@[c].0 < self.nodes@.len());
                        } else {
                            assert(sp@[i as int] == t);
                        }
                    }
                    out.push(&self.nodes[sp[i]]);
                    i = i + 1;
                }
                proof {
                    self.lemma_slot_walk(sp@, s, t);
                    let w = sp@.map_values(|j: usize| self.nodes@[j as int].key_of());
                    assert(keys_of(out@) =~= w);
                    assert(self.nodes@[s as int].key_of() == kf);
                    assert(self.nodes@[t as int].key_of() == kt);
                    assert forall|j: int| 0 <= j < out@.len() implies *out@[j] == self.nodes_view()[(
                    #[trigger] out@[j]).key_of()] by {
                        let kj = self.nodes@[sp@[j] as int].key_of();
                        assert(self.index@[kj] == sp@[j]);
                    }
                    assert forall|w2: Seq<u64>|
                        #[trigger] walk_between(self.nodes_view(), self.conns_view(), w2, kf, kt) implies out@.len()
                            <= w2.len() by {
                        self.lemma_key_walk(w2, kf, kt);
                        let sw = w2.map_values(|k: u64| self.index@[k]);
                        assert(slot_walk_between(self.edges@, sw, s, t));
                    }
                }
                Some(out)
            },
        }
    }

    /// Returns `true` if the value with the key of `from` is connected to
    /// the value with the key of `to`; `false` if not, or if the graph does
    /// not hold both.
    pub fn is_connected(&self, from: &T, to: &T) -> (r: bool)
        requires
            self.wf(),
        ensures
            r == self.conns_view().contains_key((from.key_of(), to.key_of())),
    {
        let kf = from.key();
        let kt = to.key();
        proof {
            self.lemma_wf();
        }
        let i = match self.index.get(&kf) {
            Some(i) => *i,
            None => {
                return false;
            },
        };
        let j = match self.index.get(&kt) {
            Some(j) => *j,
            None => {
                return false;
            },
        };
        match self.find_edge(i, j) {
            Some(q) => {
                proof {
                    assert(edge_keys(self.nodes@, self.edges@[q as int]) == (kf, kt));
                }
                true
            },
            None => {
                proof {
                    reveal(conns_covered);
                    if self.conns@.contains_key((kf, kt)) {
                        let c = choose|c: int|
                            0 <= c < self.edges@.len() && edge_keys(self.nodes@, #[trigger] self.edges@[c]) == (kf, kt);
                        let ee = self.edges@[c];
                        assert(self.index@[self.nodes@[ee.0 as int].key_of()] == ee.0);
                        assert(self.index@[self.nodes@[ee.1 as int].key_of()] == ee.1);
                    }
                }
                false
            },
        }
    }
}

/// Adding a value with a new key keeps the connections in agreement, and
/// no connection touches the new key.
proof fn lemma_add_node<T: HashKey, W>(
    nodes: Seq<T>,
    data: T,
    edges: Seq<(usize, usize, W)>,
    g: Map<(u64, u64), W>,
    k: u64,
)
    requires
        edges_ok(nodes, edges, g),
        data.key_of() == k,
        forall|j: int| 0 <= j < nodes.len() ==> (#[trigger] nodes[j]).key_of() != k,
    ensures
        edges_ok(nodes.push(data), edges, g),
        forall|p: (u64, u64)| #[trigger] g.contains_key(p) ==> p.0 != k && p.1 != k,
{
    reveal(conns_covered);
    let nodes2 = nodes.push(data);
    assert forall|q: int| 0 <= q < edges.len() implies edge_keys(nodes2, #[trigger] edges[q])
        == edge_keys(nodes, edges[q]) by {
        let ee = edges[q];
        assert(ee.0 < nodes.len() && ee.1 < nodes.len());
        assert(nodes2[ee.0 as int] == nodes[ee.0 as int]);
        assert(nodes2[ee.1 as int] == nodes[ee.1 as int]);
    }
    assert forall|p: (u64, u64)| #[trigger] g.contains_key(p) implies p.0 != k && p.1 != k by {
        let c = choose|c: int| 0 <= c < edges.len() && edge_keys(nodes, #[trigger] edges[c]) == p;
        let ee = edges[c];
        assert(ee.0 < nodes.len() && ee.1 < nodes.len());
        assert(nodes[ee.0 as int].key_of() != k);
        assert(nodes[ee.1 as int].key_of() != k);
    }
    assert forall|p: (u64, u64)| #[trigger] g.contains_key(p) implies exists|q: int|
        0 <= q < edges.len() && edge_keys(nodes2, #[trigger] edges[q]) == p by {
        let c = choose|c: int| 0 <= c < edges.len() && edge_keys(nodes, #[trigger] edges[c]) == p;
        assert(edge_keys(nodes2, edges[c]) == p);
    }
}

/// Dropping the connections of slot `i`, whose value has key `k`, leaves
/// connections that agree with the map of connections without `k`.
proof fn lemma_drop_node<T: HashKey, W>(
    nodes: Seq<T>,
    nodes2: Seq<T>,
    edges: Seq<(usize, usize, W)>,
    kept: Seq<(usize, usize, W)>,
    g: Map<(u64, u64), W>,
    i: usize,
    k: u64,
)
    requires
        edges_ok(nodes, edges, g),
        i < nodes.len(),
        nodes[i as int].key_of() == k,
        forall|a: int, b: int|
            0 <= a < b < nodes.len() ==> (#[trigger] nodes[a]).key_of() != (#[trigger] nodes[b]).key_of(),
        nodes2.len() == nodes.len(),
        forall|j: int| 0 <= j < nodes.len() ==> (#[trigger] nodes2[j]).key_of() == nodes[j].key_of(),
        forall|a: int| 0 <= a < kept.len() ==> (#[trigger] kept[a]).0 != i && kept[a].1 != i,
        forall|a: int| 0 <= a < kept.len() ==> edges.contains(#[trigger] kept[a]),
        forall|c: int|
            0 <= c < edges.len() && (#[trigger] edges[c]).0 != i && edges[c].1 != i ==> kept.contains(
                edges[c],
            ),
        forall|a: int, b: int|
            0 <= a < b < kept.len() ==> (#[trigger] kept[a]).0 != (#[trigger] kept[b]).0 || kept[a].1
                != kept[b].1,
    ensures
        edges_ok(
            nodes2,
            kept,
            Map::new(
                |p: (u64, u64)| g.contains_key(p) && p.0 != k && p.1 != k,
                |p: (u64, u64)| g[p],
            ),
        ),
{
    reveal(conns_covered);
    let g2 = Map::new(
        |p: (u64, u64)| g.contains_key(p) && p.0 != k && p.1 != k,
        |p: (u64, u64)| g[p],
    );
    assert forall|a: int| 0 <= a < kept.len() implies {
        let e = #[trigger] kept[a];
        &&& e.0 < nodes2.len()
        &&& e.1 < nodes2.len()
        &&& g2.contains_key(edge_keys(nodes2, e))
        &&& g2[edge_keys(nodes2, e)] == e.2
    } by {
        let c = choose|c: int| 0 <= c < edges.len() && edges[c] == kept[a];
        let ee = edges[c];
        assert(ee.0 < nodes.len() && ee.1 < nodes.len());
        assert(nodes2[ee.0 as int].key_of() == nodes[ee.0 as int].key_of());
        assert(nodes2[ee.1 as int].key_of() == nodes[ee.1 as int].key_of());
        let pk = edge_keys(nodes, ee);
        assert(edge_keys(nodes2, ee) == pk);
        if pk.0 == k {
            if ee.0 < i {
                assert(nodes[ee.0 as int].key_of() != nodes[i as int].key_of());
            } else {
                assert(nodes[i as int].key_of() != nodes[ee.0 as int].key_of());
            }
        }
        if pk.1 == k {
            if ee.1 < i {
                assert(nodes[ee.1 as int].key_of() != nodes[i as int].key_of());
            } else {
                assert(nodes[i as int].key_of() != nodes[ee.1 as int].key_of());
            }
        }
    }
    assert forall|p: (u64, u64)| #[trigger] g2.contains_key(p) implies exists|a: int|
        0 <= a < kept.len() && edge_keys(nodes2, #[trigger] kept[a]) == p by {
        let c = choose|c: int| 0 <= c < edges.len() && edge_keys(nodes, #[trigger] edges[c]) == p;
        let ee = edges[c];
        assert(ee.0 < nodes.len() && ee.1 < nodes.len());
        if ee.0 == i {
            assert(nodes[i as int].key_of() == k);
        }
        if ee.1 == i {
            assert(nodes[i as int].key_of() == k);
        }
        assert(kept.contains(edges[c]));
        let a = choose|a: int| 0 <= a < kept.len() && kept[a] == edges[c];
        assert(nodes2[ee.0 as int].key_of() == nodes[ee.0 as int].key_of());
        assert(nodes2[ee.1 as int].key_of() == nodes[ee.1 as int].key_of());
        assert(edge_keys(nodes2, kept[a]) == p);
    }
}

/// The connections that do not touch slot `i`, in their order.
fn edges_without<W: Copy>(edges: &Vec<(usize, usize, W)>, i: usize) -> (kept: Vec<(usize, usize, W)>)
    ensures
        forall|a: int|
            0 <= a < kept@.len() ==> (#[trigger] kept@[a]).0 != i && kept@[a].1 != i,
        forall|a: int| 0 <= a < kept@.len() ==> edges@.contains(#[trigger] kept@[a]),
        forall|c: int|
            0 <= c < edges@.len() && (#[trigger] edges@[c]).0 != i && edges@[c].1 != i
                ==> kept@.contains(edges@[c]),
        (forall|a: int, b: int|
            0 <= a < b < edges@.len() ==> (#[trigger] edges@[a]).0 != (#[trigger] edges@[b]).0
                || edges@[a].1 != edges@[b].1) ==> (forall|a: int, b: int|
            0 <= a < b < kept@.len() ==> (#[trigger] kept@[a]).0 != (#[trigger] kept@[b]).0
                || kept@[a].1 != kept@[b].1),
{
    let mut kept: Vec<(usize, usize, W)> = Vec::new();
    let ghost mut pos: Seq<int> = Seq::empty();
    let n = edges.len();
    let mut q: usize = 0;
    while q < n
        invariant
            q <= n,
            n == edges@.len(),
            pos.len() == kept@.len(),
            forall|a: int| 0 <= a < kept@.len() ==> 0 <= #[trigger] pos[a] < q,
            forall|a: int, b: int| 0 <= a < b < kept@.len() ==> #[trigger] pos[a] < #[trigger] pos[b],
            forall|a: int| 0 <= a < kept@.len() ==> #[trigger] kept@[a] == edges@[pos[a]],
            forall|a: int| 0 <= a < kept@.len() ==> (#[trigger] kept@[a]).0 != i && kept@[a].1 != i,
            forall|c: int|
                0 <= c < q && (#[trigger] edges@[c]).0 != i && edges@[c].1 != i ==> exists|a: int|
                    0 <= a < kept@.len() && #[trigger] kept@[a] == edges@[c],
        decreases n - q,
    {
        let e = edges[q];
        if e.0 != i && e.1 != i {
            let ghost old_kept = kept@;
            kept.push(e);
            proof {
                pos = pos.push(q as int);
                assert forall|c: int|
                    0 <= c < q + 1 && (#[trigger] edges@[c]).0 != i && edges@[c].1 != i implies exists|a: int|
                        0 <= a < kept@.len() && #[trigger] kept@[a] == edges@[c] by {
                    if c == q {
                        assert(kept@[kept@.len() - 1] == edges@[c]);
                    } else {
                        let a = choose|a: int| 0 <= a < old_kept.len() && #[trigger] old_kept[a] == edges@[c];
                        assert(kept@[a] == old_kept[a]);
                    }
                }
            }
        }
        q = q + 1;
    }
    proof {
        assert forall|a: int| 0 <= a < kept@.len() implies edges@.contains(#[trigger] kept@[a]) by {
            assert(edges@[pos[a]] == kept@[a]);
        }
        assert forall|c: int|
            0 <= c < edges@.len() && (#[trigger] edges@[c]).0 != i && edges@[c].1 != i
                implies kept@.contains(edges@[c]) by {
            let a = choose|a: int| 0 <= a < kept@.len() && #[trigger] kept@[a] == edges@[c];
        }
        if forall|a: int, b: int|
            0 <= a < b < edges@.len() ==> (#[trigger] edges@[a]).0 != (#[trigger] edges@[b]).0
                || edges@[a].1 != edges@[b].1 {
            assert forall|a: int, b: int| 0 <= a < b < kept@.len() implies (#[trigger] kept@[a]).0
                != (#[trigger] kept@[b]).0 || kept@[a].1 != kept@[b].1 by {
                assert(edges@[pos[a]] == kept@[a]);
                assert(edges@[pos[b]] == kept@[b]);
            }
        }
    }
    kept
}

/// Two values of a graph are connected after they are connected, with the
/// weight given; inserting a value again drops its connections.
pub proof fn lemma_connected_after_connect<W>(conns: Map<(u64, u64), W>, a: u64, b: u64, w: W)
    ensures
        conns.insert((a, b), w).contains_key((a, b)),
        conns.insert((a, b), w)[(a, b)] == w,
        !Map::new(
            |p: (u64, u64)| conns.contains_key(p) && p.0 != a && p.1 != a,
            |p: (u64, u64)| conns[p],
        ).contains_key((a, b)),
{
}

/// The `i`-th step of a sequence: its `i`-th element and the next.
pub open spec fn link<K>(p: Seq<K>, i: int) -> (K, K) {
    (p[i], p[i + 1])
}

/// Some connection joins slot `a` to slot `b`.
pub open spec fn has_edge<W>(es: Seq<(usize, usize, W)>, a: usize, b: usize) -> bool {
    exists|q: int| 0 <= q < es.len() && (#[trigger] es[q]).0 == a && es[q].1 == b
}

/// The `i`-th step of a sequence of slots is a connection.
pub open spec fn has_link<W>(es: Seq<(usize, usize, W)>, p: Seq<usize>, i: int) -> bool {
    has_edge(es, link(p, i).0, link(p, i).1)
}

/// A walk along connections between slots: at least one slot, each joined
/// to the next.
pub open spec fn slot_walk<W>(es: Seq<(usize, usize, W)>, p: Seq<usize>) -> bool {
    &&& p.len() >= 1
    &&& forall|i: int| 0 <= i < p.len() - 1 ==> #[trigger] has_link(es, p, i)
}

/// A walk between slots `s` and `t`.
pub open spec fn slot_walk_between<W>(es: Seq<(usize, usize, W)>, p: Seq<usize>, s: usize, t: usize) -> bool {
    slot_walk(es, p) && p[0] == s && p.last() == t
}

/// A walk extended by one connection is a walk.
proof fn lemma_walk_push<W>(es: Seq<(usize, usize, W)>, p: Seq<usize>, v: usize)
    requires
        slot_walk(es, p),
        has_edge(es, p.last(), v),
    ensures
        slot_walk(es, p.push(v)),
        p.push(v).len() == p.len() + 1,
        p.push(v)[0] == p[0],
        p.push(v).last() == v,
{
    let p2 = p.push(v);
    assert forall|i: int| 0 <= i < p2.len() - 1 implies #[trigger] has_link(es, p2, i) by {
        if i < p.len() - 1 {
            assert(link(p2, i) == link(p, i));
            assert(has_link(es, p, i));
        } else {
            assert(link(p2, i) == (p.last(), v));
        }
    }
}

/// A walk without its last slot is a walk.
proof fn lemma_walk_prefix<W>(es: Seq<(usize, usize, W)>, p: Seq<usize>)
    requires
        slot_walk(es, p),
        p.len() >= 2,
    ensures
        slot_walk(es, p.drop_last()),
        has_edge(es, p.drop_last().last(), p.last()),
{
    let p1 = p.drop_last();
    assert forall|i: int| 0 <= i < p1.len() - 1 implies #[trigger] has_link(es, p1, i) by {
        assert(link(p1, i) == link(p, i));
        assert(has_link(es, p, i));
    }
    assert(has_link(es, p, p.len() - 2));
    assert(link(p, p.len() - 2) == (p1.last(), p.last()));
}

/// What breadth-first search knows after settling every slot within `k`
/// connections of `s`: each seen slot is reached by a walk as long as its
/// depth, through a parent one level up; only `s` is at depth 0; and every
/// walk from `s` of at most `k` connections ends at a seen slot no deeper
/// than the walk.
pub open spec fn bfs_state<W>(
    es: Seq<(usize, usize, W)>,
    n: nat,
    s: usize,
    seen: Seq<bool>,
    depth: Seq<usize>,
    parent: Seq<usize>,
    walks: Seq<Seq<usize>>,
    k: nat,
) -> bool {
    &&& seen.len() == n
    &&& depth.len() == n
    &&& parent.len() == n
    &&& walks.len() == n
    &&& s < n
    &&& seen[s as int]
    &&& depth[s as int] == 0
    &&& forall|v: int|
        0 <= v < n && #[trigger] seen[v] ==> {
            &&& depth[v] <= k
            &&& slot_walk_between(es, walks[v], s, v as usize)
            &&& walks[v].len() == depth[v] + 1
        }
    &&& forall|v: int|
        0 <= v < n && #[trigger] seen[v] && depth[v] > 0 ==> {
            &&& parent[v] < n
            &&& seen[parent[v] as int]
            &&& depth[parent[v] as int] + 1 == depth[v]
            &&& has_edge(es, parent[v], v as usize)
        }
    &&& forall|v: int| 0 <= v < n && #[trigger] seen[v] && depth[v] == 0 ==> v == s
    &&& forall|p: Seq<usize>|
        #[trigger] slot_walk_between(es, p, s, p.last()) && p.len() <= k + 1 ==> {
            &&& p.last() < n
            &&& seen[p.last() as int]
            &&& depth[p.last() as int] + 1 <= p.len()
        }
}

/// When a round of the search finds no new slot, every walk from `s` ends
/// at a seen slot.
proof fn lemma_bfs_closed<W>(
    es: Seq<(usize, usize, W)>,
    n: nat,
    s: usize,
    seen: Seq<bool>,
    depth: Seq<usize>,
    parent: Seq<usize>,
    walks: Seq<Seq<usize>>,
    k: nat,
    p: Seq<usize>,
)
    requires
        bfs_state(es, n, s, seen, depth, parent, walks, k + 1),
        forall|v: int| 0 <= v < n && #[trigger] seen[v] ==> depth[v] <= k,
        slot_walk_between(es, p, s, p.last()),
    ensures
        p.last() < n,
        seen[p.last() as int],
    decreases p.len(),
{
    if p.len() > k + 2 {
        let p1 = p.drop_last();
        lemma_walk_prefix(es, p);
        assert(slot_walk_between(es, p1, s, p1.last()));
        lemma_bfs_closed(es, n, s, seen, depth, parent, walks, k, p1);
        let u = p1.last();
        let w = walks[u as int];
        lemma_walk_push(es, w, p.last());
        assert(slot_walk_between(es, w.push(p.last()), s, w.push(p.last()).last()));
    }
}

/// What a round of breadth-first search from depth `k` keeps while it
/// scans the connections before `q`: slots seen before the round keep
/// their depth, slots first seen in it are one deeper, every seen slot is
/// reached by a walk as long as its depth through a parent one level up,
/// and every scanned connection out of a slot at depth `k` leads to a
/// seen slot.
pub open spec fn round_ok<W>(
    es: Seq<(usize, usize, W)>,
    n: nat,
    s: usize,
    k: nat,
    seen0: Seq<bool>,
    depth0: Seq<usize>,
    seen: Seq<bool>,
    depth: Seq<usize>,
    parent: Seq<usize>,
    walks: Seq<Seq<usize>>,
    q: int,
) -> bool {
    &&& seen0.len() == n
    &&& depth0.len() == n
    &&& seen.len() == n
    &&& depth.len() == n
    &&& parent.len() == n
    &&& walks.len() == n
    &&& s < n
    &&& seen[s as int]
    &&& depth[s as int] == 0
    &&& k + 1 <= usize::MAX
    &&& 0 <= q <= es.len()
    &&& forall|c: int| 0 <= c < es.len() ==> (#[trigger] es[c]).0 < n && es[c].1 < n
    &&& forall|v: int| 0 <= v < n && #[trigger] seen0[v] ==> seen[v] && depth[v] == depth0[v]
    &&& forall|v: int| 0 <= v < n && #[trigger] seen[v] && !seen0[v] ==> depth[v] == k + 1
    &&& forall|v: int|
        0 <= v < n && #[trigger] seen[v] ==> {
            &&& depth[v] <= k + 1
            &&& slot_walk_between(es, walks[v], s, v as usize)
            &&& walks[v].len() == depth[v] + 1
        }
    &&& forall|v: int|
        0 <= v < n && #[trigger] seen[v] && depth[v] > 0 ==> {
            &&& parent[v] < n
            &&& seen[parent[v] as int]
            &&& depth[parent[v] as int] + 1 == depth[v]
            &&& has_edge(es, parent[v], v as usize)
        }
    &&& forall|v: int| 0 <= v < n && #[trigger] seen[v] && depth[v] == 0 ==> v == s
    &&& forall|c: int|
        0 <= c < q && seen0[(#[trigger] es[c]).0 as int] && depth0[es[c].0 as int] == k
            ==> seen[es[c].1 as int]
}

/// Seeing the far end of connection `q`, out of a slot at depth `k`, one
/// level deeper keeps the round's invariant.
#[verifier::spinoff_prover]
#[verifier::rlimit(50)]
proof fn lemma_round_mark<W>(
    es: Seq<(usize, usize, W)>,
    n: nat,
    s: usize,
    k: nat,
    seen0: Seq<bool>,
    depth0: Seq<usize>,
    seen: Seq<bool>,
    depth: Seq<usize>,
    parent: Seq<usize>,
    walks: Seq<Seq<usize>>,
    q: int,
)
    requires
        round_ok(es, n, s, k, seen0, depth0, seen, depth, parent, walks, q),
        q < es.len(),
        seen[es[q].0 as int],
        depth[es[q].0 as int] == k,
        !seen[es[q].1 as int],
    ensures
        ({
            let u = es[q].0;
            let v = es[q].1;
            round_ok(
                es,
                n,
                s,
                k,
                seen0,
                depth0,
                seen.update(v as int, true),
                depth.update(v as int, (k + 1) as usize),
                parent.update(v as int, u),
                walks.update(v as int, walks[u as int].push(v)),
                q + 1,
            )
        }),
{
    let u = es[q].0;
    let v = es[q].1;
    let seen2 = seen.update(v as int, true);
    let depth2 = depth.update(v as int, (k + 1) as usize);
    let parent2 = parent.update(v as int, u);
    let walks2 = walks.update(v as int, walks[u as int].push(v));
    assert(has_edge(es, u, v));
    lemma_walk_push(es, walks[u as int], v);
    assert(u != v);
    assert forall|w: int| 0 <= w < n && #[trigger] seen2[w] implies {
        &&& depth2[w] <= k + 1
        &&& slot_walk_between(es, walks2[w], s, w as usize)
        &&& walks2[w].len() == depth2[w] + 1
    } by {
        if w != v {
            assert(seen[w]);
        }
    }
    assert forall|w: int| 0 <= w < n && #[trigger] seen2[w] && depth2[w] > 0 implies {
        &&& parent2[w] < n
        &&& seen2[parent2[w] as int]
        &&& depth2[parent2[w] as int] + 1 == depth2[w]
        &&& has_edge(es, parent2[w], w as usize)
    } by {
        if w != v {
            assert(seen[w]);
            assert(parent2[w] == parent[w]);
            assert(seen[parent[w] as int]);
            assert(parent[w] != v);
        }
    }
    assert forall|c: int|
        0 <= c < q + 1 && seen0[(#[trigger] es[c]).0 as int] && depth0[es[c].0 as int] == k
            implies seen2[es[c].1 as int] by {
        if c < q {
            assert(seen[es[c].1 as int]);
        }
    }
    assert forall|w: int| 0 <= w < n && #[trigger] seen0[w] implies seen2[w] && depth2[w] == depth0[w] by {
        assert(seen[w]);
    }
    assert forall|w: int| 0 <= w < n && #[trigger] seen2[w] && depth2[w] == 0 implies w == s by {
        if w != v {
            assert(seen[w]);
        }
    }
    assert forall|w: int| 0 <= w < n && #[trigger] seen2[w] && !seen0[w] implies depth2[w] == k + 1 by {
        if w != v {
            assert(seen[w]);
        }
    }
}

/// Passing over a connection that is not out of a slot at depth `k` to an
/// unseen slot keeps the round's invariant.
proof fn lemma_round_skip<W>(
    es: Seq<(usize, usize, W)>,
    n: nat,
    s: usize,
    k: nat,
    seen0: Seq<bool>,
    depth0: Seq<usize>,
    seen: Seq<bool>,
    depth: Seq<usize>,
    parent: Seq<usize>,
    walks: Seq<Seq<usize>>,
    q: int,
)
    requires
        round_ok(es, n, s, k, seen0, depth0, seen, depth, parent, walks, q),
        q < es.len(),
        !(seen[es[q].0 as int] && depth[es[q].0 as int] == k && !seen[es[q].1 as int]),
    ensures
        round_ok(es, n, s, k, seen0, depth0, seen, depth, parent, walks, q + 1),
{
    assert forall|c: int|
        0 <= c < q + 1 && seen0[(#[trigger] es[c]).0 as int] && depth0[es[c].0 as int] == k
            implies seen[es[c].1 as int] by {
        if c == q {
            assert(seen[es[q].0 as int]);
        }
    }
}

/// At the end of a round from depth `k`, the search has settled every slot
/// within `k + 1` connections.
proof fn lemma_round_end<W>(
    es: Seq<(usize, usize, W)>,
    n: nat,
    s: usize,
    k: nat,
    seen0: Seq<bool>,
    depth0: Seq<usize>,
    parent0: Seq<usize>,
    walks0: Seq<Seq<usize>>,
    seen: Seq<bool>,
    depth: Seq<usize>,
    parent: Seq<usize>,
    walks: Seq<Seq<usize>>,
)
    requires
        bfs_state(es, n, s, seen0, depth0, parent0, walks0, k),
        round_ok(es, n, s, k, seen0, depth0, seen, depth, parent, walks, es.len() as int),
    ensures
        bfs_state(es, n, s, seen, depth, parent, walks, k + 1),
{
    let kk = k + 1;
    assert forall|p: Seq<usize>|
        #[trigger] slot_walk_between(es, p, s, p.last()) && p.len() <= kk + 1 implies {
        &&& p.last() < n
        &&& seen[p.last() as int]
        &&& depth[p.last() as int] + 1 <= p.len()
    } by {
        if p.len() <= k + 1 {
            assert(seen0[p.last() as int]);
        } else {
            let p1 = p.drop_last();
            lemma_walk_prefix(es, p);
            assert(slot_walk_between(es, p1, s, p1.last()));
            let u = p1.last();
            assert(seen0[u as int]);
            let v = p.last();
            let c = choose|c: int| 0 <= c < es.len() && (#[trigger] es[c]).0 == u && es[c].1 == v;
            if depth0[u as int] == k {
                assert(seen[es[c].1 as int]);
            } else {
                assert(seen[u as int]);
                let w = walks[u as int];
                lemma_walk_push(es, w, v);
                assert(slot_walk_between(es, w.push(v), s, w.push(v).last()));
                assert(seen0[v as int]);
            }
        }
    }
}

/// Finds a shortest walk along connections from slot `s` to slot `t`, by
/// breadth-first search over `n` slots.
fn shortest_walk<W>(es: &Vec<(usize, usize, W)>, n: usize, s: usize, t: usize) -> (r: Option<
    Vec<usize>,
>)
    requires
        s < n,
        t < n,
        forall|q: int| 0 <= q < es@.len() ==> (#[trigger] es@[q]).0 < n && es@[q].1 < n,
    ensures
        match r {
            Some(p) => {
                &&& slot_walk_between(es@, p@, s, t)
                &&& forall|q: Seq<usize>| #[trigger]
                    slot_walk_between(es@, q, s, t) ==> p@.len() <= q.len()
            },
            None => forall|q: Seq<usize>| !#[trigger] slot_walk_between(es@, q, s, t),
        },
{
    let mut seen: Vec<bool> = Vec::new();
    let mut depth: Vec<usize> = Vec::new();
    let mut parent: Vec<usize> = Vec::new();
    let mut j: usize = 0;
    while j < n
        invariant
            j <= n,
            seen@.len() == j,
            depth@.len() == j,
            parent@.len() == j,
            forall|v: int| 0 <= v < j ==> !#[trigger] seen@[v],
            forall|v: int| 0 <= v < j ==> #[trigger] depth@[v] == 0,
        decreases n - j,
    {
        seen.push(false);
        depth.push(0);
        parent.push(0);
        j = j + 1;
    }
    seen.set(s, true);
    let ghost mut walks: Seq<Seq<usize>> = Seq::new(n as nat, |v: int| seq![v as usize]);
    let ghost mut seen_set: Set<int> = set![s as int];
    let mut count: usize = 1;
    proof {
        assert(walks[s as int] =~= seq![s]);
        assert(slot_walk_between(es@, walks[s as int], s, s));
        assert forall|p: Seq<usize>|
            #[trigger] slot_walk_between(es@, p, s, p.last()) && p.len() <= 1 implies {
            &&& p.last() < n
            &&& seen@[p.last() as int]
            &&& depth@[p.last() as int] + 1 <= p.len()
        } by {
            assert(p.last() == p[0]);
        }
        assert(seen_set =~= Set::new(|v: int| 0 <= v < n && seen@[v]));
    }
    let mut k: usize = 0;
    let mut grew = true;
    while !seen[t] && grew
        invariant
            bfs_state(es@, n as nat, s, seen@, depth@, parent@, walks, k as nat),
            t < n,
            forall|q: int| 0 <= q < es@.len() ==> (#[trigger] es@[q]).0 < n && es@[q].1 < n,
            !grew ==> forall|v: int| 0 <= v < n && #[trigger] seen@[v] ==> depth@[v] + 1 <= k,
            k >= 1 || grew,
            k <= count,
            grew ==> k < count,
            seen_set == Set::new(|v: int| 0 <= v < n && seen@[v]),
            seen_set.finite(),
            seen_set.len() == count,
            count <= n,
        decreases n - count, if grew { 1int } else { 0int },
    {
        let ghost seen0 = seen@;
        let ghost depth0 = depth@;
        let ghost count0 = count;
        let ghost parent0 = parent@;
        let ghost walks0 = walks;
        grew = false;
        let m = es.len();
        let mut q: usize = 0;
        while q < m
            invariant
                q <= m,
                m == es@.len(),
                t < n,
                k < count0,
                forall|c: int| 0 <= c < es@.len() ==> (#[trigger] es@[c]).0 < n && es@[c].1 < n,
                bfs_state(es@, n as nat, s, seen0, depth0, parent0, walks0, k as nat),
                round_ok(es@, n as nat, s, k as nat, seen0, depth0, seen@, depth@, parent@, walks, q as int),
                !grew ==> seen@ == seen0 && depth@ == depth0,
                seen_set == Set::new(|v: int| 0 <= v < n && seen@[v]),
                seen_set.finite(),
                seen_set.len() == count,
                count <= n,
                count0 <= count,
                grew <==> count0 < count,
            decreases m - q,
        {
            let u = es[q].0;
            let v = es[q].1;
            if seen[u] && depth[u] == k && !seen[v] {
                proof {
                    lemma_round_mark(es@, n as nat, s, k as nat, seen0, depth0, seen@, depth@, parent@, walks, q as int);
                    walks = walks.update(v as int, walks[u as int].push(v));
                    assert(!seen_set.contains(v as int));
                    seen_set = seen_set.insert(v as int);
                    vstd::set_lib::lemma_int_range(0, n as int);
                    vstd::set_lib::lemma_len_subset(seen_set, vstd::set_lib::set_int_range(0, n as int));
                }
                seen.set(v, true);
                depth.set(v, k + 1);
                parent.set(v, u);
                count = count + 1;
                grew = true;
                proof {
                    assert(seen_set =~= Set::new(|w: int| 0 <= w < n && seen@[w]));
                }
            } else {
                proof {
                    lemma_round_skip(es@, n as nat, s, k as nat, seen0, depth0, seen@, depth@, parent@, walks, q as int);
                }
            }
            q = q + 1;
        }
        proof {
            lemma_round_end(es@, n as nat, s, k as nat, seen0, depth0, parent0, walks0, seen@, depth@, parent@, walks);
        }
        k = k + 1;
    }
    if !seen[t] {
        proof {
            assert forall|q: Seq<usize>| !#[trigger] slot_walk_between(es@, q, s, t) by {
                if slot_walk_between(es@, q, s, t) {
                    assert(slot_walk_between(es@, q, s, q.last()));
                    lemma_bfs_closed(es@, n as nat, s, seen@, depth@, parent@, walks, (k - 1) as nat, q);
                }
            }
        }
        return None;
    }
    let mut rev: Vec<usize> = Vec::new();
    let mut cur = t;
    rev.push(t);
    while depth[cur] > 0
        invariant
            bfs_state(es@, n as nat, s, seen@, depth@, parent@, walks, k as nat),
            cur < n,
            seen@[cur as int],
            rev@.len() + depth@[cur as int] == depth@[t as int] + 1,
            slot_walk_between(es@, rev@.reverse(), cur, t),
        decreases depth@[cur as int],
    {
        let p = parent[cur];
        proof {
            let r0 = rev@.reverse();
            let r1 = rev@.push(p).reverse();
            assert(r1 =~= seq![p] + r0);
            assert forall|i: int| 0 <= i < r1.len() - 1 implies #[trigger] has_link(es@, r1, i) by {
                if i == 0 {
                    assert(link(r1, 0) == (p, cur));
                } else {
                    assert(link(r1, i) == link(r0, i - 1));
                    assert(has_link(es@, r0, i - 1));
                }
            }
        }
        rev.push(p);
        cur = p;
    }
    let mut path: Vec<usize> = Vec::new();
    let len = rev.len();
    let mut i: usize = 0;
    while i < len
        invariant
            i <= len,
            len == rev@.len(),
            path@ == rev@.reverse().take(i as int),
        decreases len - i,
    {
        path.push(rev[len - 1 - i]);
        i = i + 1;
        proof {
            assert(path@ =~= rev@.reverse().take(i as int));
        }
    }
    proof {
        assert(path@ =~= rev@.reverse());
        assert(cur == s);
        assert forall|q: Seq<usize>| #[trigger]
            slot_walk_between(es@, q, s, t) implies path@.len() <= q.len() by {
            assert(slot_walk_between(es@, q, s, q.last()));
            if q.len() <= k + 1 {
            } else {
                assert(depth@[t as int] <= k);
            }
        }
    }
    Some(path)
}

/// A map that leads from the key of each value to its slot has as many
/// keys as there are slots.
proof fn lemma_index_len<T: HashKey>(index: Map<u64, usize>, nodes: Seq<T>)
    requires
        forall|i: int, j: int|
            0 <= i < j < nodes.len() ==> (#[trigger] nodes[i]).key_of() != (#[trigger] nodes[j]).key_of(),
        forall|i: int|
            0 <= i < nodes.len() ==> {
                let k = (#[trigger] nodes[i]).key_of();
                index.contains_key(k) && index[k] == i
            },
        forall|k: u64|
            #[trigger] index.contains_key(k) ==> {
                &&& index[k] < nodes.len()
                &&& nodes[index[k] as int].key_of() == k
            },
    ensures
        index.dom().finite(),
        index.dom().len() == nodes.len(),
    decreases nodes.len(),
{
    let keys = nodes.map_values(|t: T| t.key_of());
    assert(index.dom() =~= keys.to_set()) by {
        assert forall|k: u64| index.dom().contains(k) implies keys.to_set().contains(k) by {
            assert(keys[index[k] as int] == k);
        }
        assert forall|k: u64| keys.to_set().contains(k) implies index.dom().contains(k) by {
            let i = choose|i: int| 0 <= i < keys.len() && keys[i] == k;
            assert(nodes[i].key_of() == k);
        }
    }
    assert(keys.no_duplicates()) by {
        assert forall|i: int, j: int| 0 <= i < keys.len() && 0 <= j < keys.len() && i != j implies keys[i]
            != keys[j] by {
            if i < j {
                assert(nodes[i].key_of() != nodes[j].key_of());
            } else {
                assert(nodes[j].key_of() != nodes[i].key_of());
            }
        }
    }
    keys.unique_seq_to_set();
}

impl<T: HashKey, W: Copy> Default for HashGraph<T, W> {
    fn default() -> (r: Self)
        ensures
            r.wf(),
            r.nodes_view() == Map::<u64, T>::empty(),
            r.conns_view() == Map::<(u64, u64), W>::empty(),
    {
        HashGraph::new()
    }
}

} // verus!
