//! A table of values that are found by a number and kept in the order of the numbers.
use vstd::prelude::*;

verus! {

/// Values under distinct numbers, in ascending order.
pub struct NumTable<V> {
    keys: Vec<i64>,
    values: Vec<V>,
}

impl<V> View for NumTable<V> {
    type V = Map<i64, V>;

    closed spec fn view(&self) -> Map<i64, V> {
        Map::new(|key: i64| self.keys@.contains(key), |key: i64| self.values@[self.place(key)])
    }
}

impl<V> NumTable<V> {
    spec fn place(&self, key: i64) -> int {
        choose|i: int| 0 <= i < self.keys@.len() && #[trigger] self.keys@[i] == key
    }

    /// The invariant of a table: the numbers ascend.
    pub closed spec fn wf(&self) -> bool {
        &&& self.keys@.len() == self.values@.len()
        &&& forall|i: int, j: int|
            #![trigger self.keys@[i], self.keys@[j]]
            0 <= i < j < self.keys@.len() ==> self.keys@[i] < self.keys@[j]
    }

    /// The numbers in order.
    pub closed spec fn keys(&self) -> Seq<i64> {
        self.keys@
    }

    /// The numbers ascend, and are those that the table holds.
    pub proof fn keys_ascend(&self)
        requires
            self.wf(),
        ensures
            forall|i: int, j: int|
                #![trigger self.keys()[i], self.keys()[j]]
                0 <= i < j < self.keys().len() ==> self.keys()[i] < self.keys()[j],
            forall|key: i64| #[trigger]
                self@.dom().contains(key) <==> self.keys().contains(key),
    {
    }

    /// A value stands where its number says.
    proof fn value_at(&self, i: int)
        requires
            self.wf(),
            0 <= i < self.keys@.len(),
        ensures
            self@.dom().contains(self.keys@[i]),
            self@[self.keys@[i]] == self.values@[i],
    {
        let key = self.keys@[i];
        let p = self.place(key);
        assert(self.keys@[p] == key);
        if p < i {
            assert(self.keys@[p] < self.keys@[i]);
        } else if i < p {
            assert(self.keys@[i] < self.keys@[p]);
        }
    }

    /// An empty table.
    pub fn new() -> (r: Self)
        ensures
            r.wf(),
            r@ == Map::<i64, V>::empty(),
    {
        let r = NumTable { keys: Vec::new(), values: Vec::new() };
        assert(r@ =~= Map::<i64, V>::empty());
        r
    }

    /// How many values there are.
    pub fn len(&self) -> (r: usize)
        ensures
            r == self.keys().len(),
    {
        self.keys.len()
    }

    /// The number at a place.
    pub fn key_at(&self, i: usize) -> (r: i64)
        requires
            i < self.keys().len(),
        ensures
            r == self.keys()[i as int],
    {
        self.keys[i]
    }

    /// The value at a place.
    pub fn at(&self, i: usize) -> (r: &V)
        requires
            self.wf(),
            i < self.keys().len(),
        ensures
            *r == self@[self.keys()[i as int]],
    {
        proof {
            self.value_at(i as int);
        }
        &self.values[i]
    }

    /// The place of a number, or the place where it would have to stand.
    fn find(&self, key: i64) -> (r: Result<usize, usize>)
        requires
            self.wf(),
        ensures
            match r {
                Ok(i) => i < self.keys@.len() && self.keys@[i as int] == key,
                Err(i) => {
                    &&& i <= self.keys@.len()
                    &&& forall|j: int| 0 <= j < i ==> #[trigger] self.keys@[j] < key
                    &&& forall|j: int| i <= j < self.keys@.len() ==> key < #[trigger] self.keys@[j]
                },
            },
    {
        let mut i: usize = 0;
        while i < self.keys.len()
            invariant
                self.wf(),
                i <= self.keys@.len(),
                forall|j: int| 0 <= j < i ==> #[trigger] self.keys@[j] < key,
            decreases self.keys@.len() - i,
        {
            if self.keys[i] == key {
                return Ok(i);
            }
            if self.keys[i] > key {
                return Err(i);
            }
            i += 1;
        }
        Err(i)
    }

    /// The value under a number, if there is one.
    pub fn get(&self, key: i64) -> (r: Option<&V>)
        requires
            self.wf(),
        ensures
            match r {
                Some(value) => self@.dom().contains(key) && *value == self@[key],
                None => !self@.dom().contains(key),
            },
    {
        match self.find(key) {
            Ok(i) => {
                proof {
                    self.value_at(i as int);
                }
                Some(&self.values[i])
            },
            Err(_) => None,
        }
    }

    /// Puts a value in the place of the one under the same number, or adds it.
    pub fn put(&mut self, key: i64, value: V)
        requires
            old(self).wf(),
        ensures
            final(self).wf(),
            final(self)@ == old(self)@.insert(key, value),
    {
        let ghost before = *self;
        match self.find(key) {
            Ok(i) => {
                self.values[i] = value;
                proof {
                    assert forall|k: i64| #[trigger] self@.dom().contains(k) implies self@[k]
                        == before@.insert(key, value)[k] by {
                        let p = self.place(k);
                        assert(self.keys@[p] == k);
                        self.value_at(p);
                        before.value_at(p);
                        if k == key && p != i {
                            self.value_at(i as int);
                        }
                    }
                    before.value_at(i as int);
                    assert(self@ =~= before@.insert(key, value));
                }
            },
            Err(i) => {
                self.keys.insert(i, key);
                self.values.insert(i, value);
                proof {
                    assert forall|a: int, b: int|
                        #![trigger self.keys@[a], self.keys@[b]]
                        0 <= a < b < self.keys@.len() implies self.keys@[a] < self.keys@[b] by {
                        let x = if a < i { a } else { a - 1 };
                        let y = if b < i { b } else { b - 1 };
                        if a == i {
                            assert(self.keys@[b] == before.keys@[b - 1]);
                        } else if b == i {
                            assert(self.keys@[a] == before.keys@[a]);
                        } else {
                            assert(self.keys@[a] == before.keys@[x]);
                            assert(self.keys@[b] == before.keys@[y]);
                        }
                    }
                    assert forall|k: i64| #[trigger] self@.dom().contains(k) <==> before@.insert(
                        key,
                        value,
                    ).dom().contains(k) by {
                        if before.keys@.contains(k) {
                            let p = choose|p: int|
                                0 <= p < before.keys@.len() && before.keys@[p] == k;
                            assert(self.keys@[if p < i { p } else { p + 1 }] == k);
                        }
                        if self.keys@.contains(k) {
                            let p = choose|p: int| 0 <= p < self.keys@.len() && self.keys@[p] == k;
                            if p < i {
                                assert(before.keys@[p] == k);
                            } else if p > i {
                                assert(before.keys@[p - 1] == k);
                            }
                        }
                        assert(self.keys@[i as int] == key);
                    }
                    assert forall|k: i64| #[trigger] self@.dom().contains(k) implies self@[k]
                        == before@.insert(key, value)[k] by {
                        let p = self.place(k);
                        assert(self.keys@[p] == k);
                        self.value_at(p);
                        if p < i {
                            before.value_at(p);
                        } else if p > i {
                            before.value_at(p - 1);
                        }
                    }
                    assert(self@ =~= before@.insert(key, value));
                }
            },
        }
    }
}

} // verus!
