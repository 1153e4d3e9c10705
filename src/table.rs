//! A map from strings to values, kept as a vector of entries with distinct keys.

use vstd::prelude::*;

verus! {

/// A map from string keys to values of type `V`.
///
/// Each key occurs at most once; the order of the entries carries no meaning.
pub struct Table<V> {
    entries: Vec<(String, V)>,
}

impl<V> Table<V> {
    /// The keys of the entries, in storage order.
    pub closed spec fn key_seq(&self) -> Seq<Seq<char>> {
        self.entries@.map_values(|e: (String, V)| e.0@)
    }

    /// No key occurs twice.
    #[verifier::type_invariant]
    pub closed spec fn wf(&self) -> bool {
        self.key_seq().no_duplicates()
    }

    /// The index at which `k` is stored.
    spec fn index_of(&self, k: Seq<char>) -> int {
        choose|i: int| 0 <= i < self.entries@.len() && self.entries@[i].0@ == k
    }

    /// The map that the table stands for.
    pub closed spec fn view(&self) -> Map<Seq<char>, V> {
        Map::new(
            |k: Seq<char>| self.key_seq().contains(k),
            |k: Seq<char>| self.entries@[self.index_of(k)].1,
        )
    }

    proof fn lemma_view_at(&self, i: int)
        requires
            self.wf(),
            0 <= i < self.entries@.len(),
        ensures
            self@.contains_key(self.entries@[i].0@),
            self@[self.entries@[i].0@] == self.entries@[i].1,
            self.key_seq()[i] == self.entries@[i].0@,
    {
        let k = self.entries@[i].0@;
        assert(self.key_seq()[i] == k);
        let j = self.index_of(k);
        assert(self.key_seq()[j] == k);
    }

    /// The keys of a well-formed table are exactly the keys of its map.
    pub proof fn lemma_keys(&self)
        requires
            self.wf(),
        ensures
            self.key_seq().no_duplicates(),
            self.key_seq().to_set() == self@.dom(),
            self.key_seq().len() == self@.dom().len(),
            forall|i: int| 0 <= i < self.key_seq().len()
                ==> self@.contains_key(#[trigger] self.key_seq()[i]),
    {
        assert(self.key_seq().to_set() =~= self@.dom());
        self.key_seq().unique_seq_to_set();
    }

    pub fn new() -> (r: Self)
        ensures
            r.wf(),
            r@ == Map::<Seq<char>, V>::empty(),
    {
        let r = Table { entries: Vec::new() };
        assert(r@ =~= Map::<Seq<char>, V>::empty());
        r
    }

    /// The number of keys.
    pub fn len(&self) -> (r: usize)
        ensures
            self.wf(),
            r == self@.dom().len(),
            r == self.key_seq().len(),
    {
        proof {
            use_type_invariant(self);
            self.lemma_keys();
        }
        self.entries.len()
    }

    /// Where `k` is stored, if anywhere.
    fn find(&self, k: &String) -> (r: Option<usize>)
        ensures
            self.wf(),
            match r {
                Some(i) => i < self.entries@.len() && self.entries@[i as int].0@ == k@,
                None => !self@.contains_key(k@),
            },
    {
        proof {
            use_type_invariant(self);
        }
        let mut i: usize = 0;
        while i < self.entries.len()
            invariant
                self.wf(),
                i <= self.entries@.len(),
                forall|j: int| 0 <= j < i ==> self.entries@[j].0@ != k@,
            decreases self.entries@.len() - i,
        {
            if self.entries[i].0 == *k {
                return Some(i);
            }
            i += 1;
        }
        proof {
            if self@.contains_key(k@) {
                let j = self.key_seq().index_of(k@);
                assert(self.key_seq()[j] == self.entries@[j].0@);
            }
        }
        None
    }

    /// The key and value stored at position `i`.
    pub fn entry_at(&self, i: usize) -> (r: (&String, &V))
        requires
            i < self.key_seq().len(),
        ensures
            self.wf(),
            r.0@ == self.key_seq()[i as int],
            self@.contains_key(r.0@),
            self@[r.0@] == *r.1,
    {
        proof {
            use_type_invariant(self);
            self.lemma_view_at(i as int);
        }
        let e = &self.entries[i];
        (&e.0, &e.1)
    }

    /// The value stored under `k`.
    pub fn get(&self, k: &String) -> (r: Option<&V>)
        ensures
            self.wf(),
            match r {
                Some(v) => self@.contains_key(k@) && self@[k@] == *v,
                None => !self@.contains_key(k@),
            },
    {
        match self.find(k) {
            Some(i) => {
                proof {
                    self.lemma_view_at(i as int);
                }
                Some(&self.entries[i].1)
            },
            None => None,
        }
    }

    /// Stores `v` under `k`, in place of any value stored there before.
    pub fn insert(&mut self, k: String, v: V)
        ensures
            old(self).wf(),
            final(self).wf(),
            final(self)@ == old(self)@.insert(k@, v),
            final(self).key_seq() == if old(self)@.contains_key(k@) {
                old(self).key_seq()
            } else {
                old(self).key_seq().push(k@)
            },
    {
        proof {
            use_type_invariant(&*self);
        }
        let ghost key = k@;
        match self.find(&k) {
            Some(i) => {
                proof {
                    old(self).lemma_view_at(i as int);
                }
                let mut entries: Vec<(String, V)> = Vec::new();
                std::mem::swap(&mut self.entries, &mut entries);
                entries.set(i, (k, v));
                proof {
                    assert(entries@.map_values(|e: (String, V)| e.0@) =~= old(self).key_seq());
                }
                self.entries = entries;
                proof {
                    assert(self.key_seq() =~= old(self).key_seq());
                    assert forall|x: Seq<char>| self@.contains_key(x) implies self@[x]
                        == old(self)@.insert(key, v)[x] by {
                        let j = self.key_seq().index_of(x);
                        self.lemma_view_at(j);
                        if j != i {
                            old(self).lemma_view_at(j);
                        }
                    }
                    assert(self@ =~= old(self)@.insert(key, v));
                }
            },
            None => {
                let mut entries: Vec<(String, V)> = Vec::new();
                std::mem::swap(&mut self.entries, &mut entries);
                entries.push((k, v));
                proof {
                    assert(entries@.map_values(|e: (String, V)| e.0@) =~= old(self).key_seq().push(
                        key,
                    ));
                    assert(!old(self).key_seq().contains(key));
                }
                self.entries = entries;
                proof {
                    let n = old(self).entries@.len() as int;
                    assert(self.key_seq() =~= old(self).key_seq().push(key));
                    assert forall|x: Seq<char>| self@.contains_key(x) implies self@[x]
                        == old(self)@.insert(key, v)[x] by {
                        let j = self.key_seq().index_of(x);
                        self.lemma_view_at(j);
                        if j != n {
                            old(self).lemma_view_at(j);
                        }
                    }
                    assert forall|x: Seq<char>| #[trigger] self@.contains_key(x)
                        == old(self)@.insert(key, v).contains_key(x) by {
                        if x == key {
                            assert(self.key_seq()[n] == key);
                        } else if old(self)@.contains_key(x) {
                            let j = old(self).key_seq().index_of(x);
                            assert(self.key_seq()[j] == x);
                        }
                    }
                    assert(self@ =~= old(self)@.insert(key, v));
                }
            },
        }
    }

    /// Takes out the entry under `k`, handing back its value.
    pub fn remove(&mut self, k: &String) -> (r: Option<V>)
        ensures
            old(self).wf(),
            final(self).wf(),
            final(self)@ == old(self)@.remove(k@),
            match r {
                Some(v) => old(self)@.contains_key(k@) && old(self)@[k@] == v,
                None => !old(self)@.contains_key(k@),
            },
    {
        proof {
            use_type_invariant(&*self);
        }
        match self.find(k) {
            Some(i) => {
                proof {
                    old(self).lemma_view_at(i as int);
                }
                let mut entries: Vec<(String, V)> = Vec::new();
                std::mem::swap(&mut self.entries, &mut entries);
                let e = entries.remove(i);
                proof {
                    assert(entries@.map_values(|e: (String, V)| e.0@) =~= old(self).key_seq().remove(
                        i as int,
                    ));
                }
                self.entries = entries;
                proof {
                    assert(self.key_seq() =~= old(self).key_seq().remove(i as int));
                    assert forall|x: Seq<char>| self@.contains_key(x) implies self@[x]
                        == old(self)@.remove(k@)[x] by {
                        let j = self.key_seq().index_of(x);
                        self.lemma_view_at(j);
                        if j < i {
                            old(self).lemma_view_at(j);
                        } else {
                            old(self).lemma_view_at(j + 1);
                        }
                    }
                    assert forall|x: Seq<char>| #[trigger] self@.contains_key(x)
                        == old(self)@.remove(k@).contains_key(x) by {
                        if old(self)@.contains_key(x) && x != k@ {
                            let j = old(self).key_seq().index_of(x);
                            if j < i {
                                assert(self.key_seq()[j] == x);
                            } else {
                                assert(self.key_seq()[j - 1] == x);
                            }
                        }
                        if self@.contains_key(x) {
                            let j = self.key_seq().index_of(x);
                            if j < i {
                                assert(old(self).key_seq()[j] == x);
                            } else {
                                assert(old(self).key_seq()[j + 1] == x);
                            }
                        }
                    }
                    assert(self@ =~= old(self)@.remove(k@));
                }
                Some(e.1)
            },
            None => {
                proof {
                    assert(self@ =~= old(self)@.remove(k@));
                }
                None
            },
        }
    }
}

/// The sum of `m`'s values under the keys `keys`.
pub open spec fn sum_under(keys: Seq<Seq<char>>, m: Map<Seq<char>, usize>) -> int
    decreases keys.len(),
{
    if keys.len() == 0 {
        0
    } else {
        sum_under(keys.drop_last(), m) + m[keys.last()]
    }
}

/// Maps that agree on `keys` have the same sum under them.
pub proof fn lemma_sum_agree(keys: Seq<Seq<char>>, m1: Map<Seq<char>, usize>, m2: Map<
    Seq<char>,
    usize,
>)
    requires
        forall|i: int| 0 <= i < keys.len() ==> m1[#[trigger] keys[i]] == m2[keys[i]],
    ensures
        sum_under(keys, m1) == sum_under(keys, m2),
    decreases keys.len(),
{
    if keys.len() > 0 {
        lemma_sum_agree(keys.drop_last(), m1, m2);
    }
}

/// Changing the value under one key that occurs once changes the sum by the difference.
pub proof fn lemma_sum_change(keys: Seq<Seq<char>>, m: Map<Seq<char>, usize>, k: Seq<char>, v: usize)
    requires
        keys.no_duplicates(),
        keys.contains(k),
    ensures
        sum_under(keys, m.insert(k, v)) == sum_under(keys, m) - m[k] + v,
    decreases keys.len(),
{
    let n = keys.len() - 1;
    if keys.last() == k {
        lemma_sum_agree(keys.drop_last(), m, m.insert(k, v));
    } else {
        assert(keys.drop_last().contains(k)) by {
            let j = keys.index_of(k);
            assert(keys.drop_last()[j] == k);
        }
        lemma_sum_change(keys.drop_last(), m, k, v);
    }
}

/// Each value under a key is at most the sum, when no value is negative.
pub proof fn lemma_sum_bound(keys: Seq<Seq<char>>, m: Map<Seq<char>, usize>, k: Seq<char>)
    requires
        keys.contains(k),
    ensures
        m[k] <= sum_under(keys, m),
        sum_under(keys, m) >= 0,
    decreases keys.len(),
{
    if keys.last() == k {
        lemma_sum_nonneg(keys.drop_last(), m);
    } else {
        assert(keys.drop_last().contains(k)) by {
            let j = keys.index_of(k);
            assert(keys.drop_last()[j] == k);
        }
        lemma_sum_bound(keys.drop_last(), m, k);
    }
}

pub proof fn lemma_sum_nonneg(keys: Seq<Seq<char>>, m: Map<Seq<char>, usize>)
    ensures
        sum_under(keys, m) >= 0,
    decreases keys.len(),
{
    if keys.len() > 0 {
        lemma_sum_nonneg(keys.drop_last(), m);
    }
}

impl Table<usize> {
    /// The sum of all values.
    pub open spec fn total(&self) -> int {
        sum_under(self.key_seq(), self@)
    }

    /// The sum of all values, or `None` when it does not fit in a `usize`.
    pub fn checked_total(&self) -> (r: Option<usize>)
        ensures
            self.wf(),
            match r {
                Some(n) => n == self.total(),
                None => self.total() > usize::MAX,
            },
    {
        proof {
            use_type_invariant(self);
        }
        let mut sum: usize = 0;
        let mut i: usize = 0;
        let n = self.entries.len();
        while i < n
            invariant
                n == self.key_seq().len(),
                self.wf(),
                i <= n,
                sum == sum_under(self.key_seq().take(i as int), self@),
            decreases n - i,
        {
            let (k, v) = self.entry_at(i);
            proof {
                assert(self.key_seq().take(i + 1).drop_last() =~= self.key_seq().take(i as int));
            }
            if sum > usize::MAX - *v {
                proof {
                    lemma_sum_prefix_grows(self.key_seq(), self@, i as int + 1);
                }
                return None;
            }
            sum = sum + *v;
            i = i + 1;
        }
        proof {
            assert(self.key_seq().take(n as int) =~= self.key_seq());
        }
        Some(sum)
    }
}

/// A longer prefix of the keys never has a smaller sum.
pub proof fn lemma_sum_prefix_grows(keys: Seq<Seq<char>>, m: Map<Seq<char>, usize>, i: int)
    requires
        0 <= i <= keys.len(),
    ensures
        sum_under(keys.take(i), m) <= sum_under(keys, m),
    decreases keys.len() - i,
{
    if i < keys.len() {
        lemma_sum_prefix_grows(keys, m, i + 1);
        assert(keys.take(i + 1).drop_last() =~= keys.take(i));
    } else {
        assert(keys.take(i) =~= keys);
    }
}

} // verus!
