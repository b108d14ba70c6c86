use std::collections::HashMap;
use vstd::prelude::*;

use crate::collections::key::HashKey;
use crate::fmt::{push_str, string_from_chars};

verus! {

broadcast use {
    vstd::std_specs::hash::group_hash_axioms,
    vstd::seq_lib::to_multiset_build,
    vstd::seq_lib::to_multiset_insert,
};

/// Why an autocorrelation coefficient could not be computed.
#[derive(PartialEq, Eq, Structural, Clone, Copy, Debug)]
pub enum AcfError {
    EmptyValues,
    InvalidLag,
}

impl AcfError {
    /// The error's message.
    pub open spec fn message_text(e: AcfError) -> Seq<char> {
        match e {
            AcfError::EmptyValues => "empty values"@,
            AcfError::InvalidLag => "lag smaller than number of values"@,
        }
    }

    /// Returns the error's message.
    pub fn message(&self) -> (s: String)
        ensures
            s@ == Self::message_text(*self),
    {
        let mut out: Vec<char> = Vec::new();
        match self {
            AcfError::EmptyValues => push_str(&mut out, "empty values"),
            AcfError::InvalidLag => push_str(&mut out, "lag smaller than number of values"),
        }
        proof {
            assert(out@ =~= Self::message_text(*self));
        }
        string_from_chars(&out)
    }
}

/// Checks that an autocorrelation coefficient at `lag` can be computed
/// over `len` observations: there must be observations, and the lag must
/// be smaller than their number.
///
/// # Errors
///
/// Returns `AcfError::EmptyValues` if there is no observation, else
/// `AcfError::InvalidLag` if the lag is not smaller than their number.
pub fn check_lag(len: usize, lag: usize) -> (r: Result<(), AcfError>)
    ensures
        len == 0 ==> r == Err::<(), AcfError>(AcfError::EmptyValues),
        len > 0 && lag >= len ==> r == Err::<(), AcfError>(AcfError::InvalidLag),
        len > 0 && lag < len ==> r is Ok,
{
    if len == 0 {
        return Err(AcfError::EmptyValues);
    }
    if lag >= len {
        return Err(AcfError::InvalidLag);
    }
    Ok(())
}

/// Whether a sequence is in descending order.
pub open spec fn descending(s: Seq<u64>) -> bool {
    forall|i: int, j: int| 0 <= i <= j < s.len() ==> s[i] >= s[j]
}

/// Streaming statistics of a Zipf distribution: how often each value
/// occurred, in the order the values first occurred.
pub struct Zipf<T> {
    keys: Vec<u64>,
    counts: Vec<u64>,
    index: HashMap<u64, usize>,
    marker: core::marker::PhantomData<T>,
}

impl<T: HashKey> Zipf<T> {
    /// The keys of the distinct values seen, in the order they first
    /// occurred, with how often each occurred.
    pub closed spec fn entries(&self) -> Seq<(u64, u64)> {
        Seq::new(self.keys@.len(), |i: int| (self.keys@[i], self.counts@[i]))
    }

    /// The occurrence counts, in the order the values first occurred.
    pub open spec fn counts(&self) -> Seq<u64> {
        self.entries().map_values(|e: (u64, u64)| e.1)
    }

    pub closed spec fn wf(&self) -> bool {
        &&& self.keys@.len() == self.counts@.len()
        &&& forall|i: int, j: int|
            0 <= i < j < self.keys@.len() ==> self.keys@[i] != self.keys@[j]
        &&& forall|i: int| 0 <= i < self.keys@.len() ==> #[trigger] self.counts@[i] >= 1
        &&& forall|k: u64|
            #[trigger] self.index@.contains_key(k) <==> self.keys@.contains(k)
        &&& forall|k: u64|
            #[trigger] self.index@.contains_key(k) ==> {
                let i = self.index@[k] as int;
                0 <= i < self.keys@.len() && self.keys@[i] == k
            }
    }

    /// Distinct values have distinct entries, each seen at least once.
    pub proof fn lemma_entries(&self)
        requires
            self.wf(),
        ensures
            forall|i: int, j: int|
                0 <= i < j < self.entries().len() ==> self.entries()[i].0 != self.entries()[j].0,
            forall|i: int| 0 <= i < self.entries().len() ==> #[trigger] self.entries()[i].1 >= 1,
    {
    }

    /// Creates an empty distribution.
    pub fn new() -> (r: Self)
        ensures
            r.wf(),
            r.entries() == Seq::<(u64, u64)>::empty(),
    {
        let r = Zipf {
            keys: Vec::new(),
            counts: Vec::new(),
            index: HashMap::new(),
            marker: core::marker::PhantomData,
        };
        proof {
            assert(r.entries() =~= Seq::<(u64, u64)>::empty());
        }
        r
    }

    /// Returns `true` if no value was inserted.
    pub fn is_empty(&self) -> (r: bool)
        requires
            self.wf(),
        ensures
            r == (self.entries().len() == 0),
    {
        self.keys.len() == 0
    }

    /// Returns the number of distinct values inserted.
    pub fn len(&self) -> (r: usize)
        requires
            self.wf(),
        ensures
            r == self.entries().len(),
    {
        self.keys.len()
    }

    /// Inserts a value into the distribution: a value seen before has its
    /// count raised by one; a new value is appended with a count of one.
    ///
    /// # Examples
    /// ```
    /// use kwik::math::stats::Zipf;
    ///
    /// let mut zipf = Zipf::<u64>::new();
    ///
    /// zipf.insert(1);
    /// zipf.insert(2);
    /// zipf.insert(1);
    ///
    /// assert_eq!(zipf.frequencies(), vec![2, 1]);
    /// ```
    pub fn insert(&mut self, value: T)
        requires
            old(self).wf(),
            find_key(old(self).entries(), value.key_of()) matches Some(i) ==> old(
                self,
            ).entries()[i].1 < u64::MAX,
        ensures
            final(self).wf(),
            match find_key(old(self).entries(), value.key_of()) {
                Some(i) => final(self).entries() == old(self).entries().update(
                    i,
                    (value.key_of(), (old(self).entries()[i].1 + 1) as u64),
                ),
                None => final(self).entries() == old(self).entries().push((value.key_of(), 1u64)),
            },
    {
        let k = value.key();
        let ghost e0 = self.entries();
        match self.index.get(&k) {
            Some(i) => {
                let i = *i;
                proof {
                    assert(e0[i as int].0 == k);
                    assert forall|j: int| 0 <= j < e0.len() && #[trigger] e0[j].0 == k implies j
                        == i by {
                        if j != i {
                            if j < i {
                                assert(self.keys@[j] != self.keys@[i as int]);
                            } else {
                                assert(self.keys@[i as int] != self.keys@[j]);
                            }
                        }
                    }
                }
                let c = self.counts[i];
                self.counts.set(i, c + 1);
                proof {
                    let e1 = self.entries();
                    assert(e1 =~= e0.update(i as int, (k, (c + 1) as u64)));
                    assert forall|kk: u64| #[trigger] self.index@.contains_key(kk) implies {
                        let j = self.index@[kk] as int;
                        0 <= j < self.keys@.len() && self.keys@[j] == kk
                    } by {}
                    assert(e1[i as int].0 == k);
                    assert forall|j: int| 0 <= j < e1.len() && #[trigger] e1[j].0 == k implies j
                        == i by {
                        if j != i {
                            assert(e0[j].0 == k);
                        }
                    }
                    lemma_find_key(e0, k, i as int);
                }
            },
            None => {
                proof {
                    assert forall|j: int| 0 <= j < e0.len() implies #[trigger] e0[j].0 != k by {
                        assert(self.keys@[j] == e0[j].0);
                        if self.keys@[j] == k {
                            assert(self.keys@.contains(k));
                        }
                    }
                }
                let n = self.keys.len();
                self.keys.push(k);
                self.counts.push(1);
                self.index.insert(k, n);
                proof {
                    let e1 = self.entries();
                    assert(e1 =~= e0.push((k, 1u64)));
                    assert forall|kk: u64|
                        #[trigger] self.index@.contains_key(kk) <==> self.keys@.contains(kk) by {
                        if kk != k && old(self).keys@.contains(kk) {
                            let j = choose|j: int| 0 <= j < old(self).keys@.len() && old(self).keys@[j] == kk;
                            assert(self.keys@[j] == kk);
                        }
                        if kk != k && self.keys@.contains(kk) {
                            let j = choose|j: int| 0 <= j < self.keys@.len() && self.keys@[j] == kk;
                            assert(old(self).keys@[j] == kk);
                        }
                        if kk == k {
                            assert(self.keys@[n as int] == k);
                        }
                    }
                    assert(e1[n as int].0 == k);
                    assert forall|j: int| 0 <= j < e1.len() && #[trigger] e1[j].0 == k implies j
                        == n by {
                        if j < n {
                            assert(e0[j].0 == k);
                        }
                    }
                }
            },
        }
    }

    /// Returns the occurrence counts in descending order, the input of a
    /// fit of the distribution's rank against its frequency.
    pub fn frequencies(&self) -> (r: Vec<u64>)
        requires
            self.wf(),
        ensures
            descending(r@),
            r@.to_multiset() == self.counts().to_multiset(),
    {
        let n = self.counts.len();
        let mut sorted: Vec<u64> = Vec::new();
        let mut i: usize = 0;
        proof {
            assert(self.counts() =~= self.counts@);
            assert(sorted@ =~= self.counts@.take(0));
        }
        while i < n
            invariant
                i <= n,
                n == self.counts@.len(),
                self.counts() == self.counts@,
                descending(sorted@),
                sorted@.to_multiset() == self.counts@.take(i as int).to_multiset(),
            decreases n - i,
        {
            let x = self.counts[i];
            let m = sorted.len();
            let mut pos: usize = 0;
            while pos < m && sorted[pos] >= x
                invariant
                    pos <= m,
                    m == sorted@.len(),
                    forall|q: int| 0 <= q < pos ==> sorted@[q] >= x,
                decreases m - pos,
            {
                pos = pos + 1;
            }
            let ghost before = sorted@;
            sorted.insert(pos, x);
            proof {
                assert(sorted@ == before.insert(pos as int, x));
                assert forall|a: int, b: int| 0 <= a <= b < sorted@.len() implies sorted@[a]
                    >= sorted@[b] by {
                    if pos < m {
                        assert(before[pos as int] < x);
                    }
                }
                assert(self.counts@.take(i + 1) =~= self.counts@.take(i as int).push(x));
            }
            i = i + 1;
        }
        proof {
            assert(self.counts@.take(n as int) =~= self.counts@);
        }
        sorted
    }
}

/// Where the entry with key `k` stands, if there is one.
pub open spec fn find_key(e: Seq<(u64, u64)>, k: u64) -> Option<int> {
    if exists|i: int| 0 <= i < e.len() && #[trigger] e[i].0 == k {
        Some(choose|i: int| 0 <= i < e.len() && #[trigger] e[i].0 == k)
    } else {
        None
    }
}

/// The entry with key `k` is found where it stands when no other has it.
proof fn lemma_find_key(e: Seq<(u64, u64)>, k: u64, i: int)
    requires
        0 <= i < e.len(),
        e[i].0 == k,
        forall|j: int| 0 <= j < e.len() && #[trigger] e[j].0 == k ==> j == i,
    ensures
        find_key(e, k) == Some(i),
{
}

impl<T: HashKey> Default for Zipf<T> {
    fn default() -> (r: Self)
        ensures
            r.wf(),
            r.entries() == Seq::<(u64, u64)>::empty(),
    {
        Zipf::new()
    }
}

} // verus!
