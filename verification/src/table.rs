//! A table of rows that are found by a text key and kept in key order.
use vstd::prelude::*;
use crate::text::{
    lex_less, lex_less_irreflexive, lex_less_total, lex_less_transitive, text_eq, text_less,
};

verus! {

/// A row that is found by its key.
pub trait Row: View + Sized {
    /// The key of the row.
    spec fn key(&self) -> Seq<char>;

    /// The key of the row.
    fn key_text(&self) -> (r: &String)
        ensures
            r@ == self.key(),
    ;
}

/// Rows with distinct keys, in the order of their keys.
pub struct Table<T: Row> {
    rows: Vec<T>,
}

impl<T: Row> View for Table<T> {
    type V = Map<Seq<char>, T::V>;

    closed spec fn view(&self) -> Map<Seq<char>, T::V> {
        Map::new(|key: Seq<char>| self.holds(key), |key: Seq<char>| self.rows@[self.place(key)]@)
    }
}

impl<T: Row> Table<T> {
    spec fn holds(&self, key: Seq<char>) -> bool {
        exists|i: int| 0 <= i < self.rows@.len() && (#[trigger] self.rows@[i]).key() == key
    }

    spec fn place(&self, key: Seq<char>) -> int {
        choose|i: int| 0 <= i < self.rows@.len() && (#[trigger] self.rows@[i]).key() == key
    }

    /// The invariant of a table: the keys ascend.
    pub closed spec fn wf(&self) -> bool {
        forall|i: int, j: int|
            #![trigger self.rows@[i], self.rows@[j]]
            0 <= i < j < self.rows@.len() ==> lex_less(self.rows@[i].key(), self.rows@[j].key())
    }

    /// The keys in order.
    pub closed spec fn keys(&self) -> Seq<Seq<char>> {
        self.rows@.map_values(|row: T| row.key())
    }

    /// The keys of a table ascend, and are the keys that the table holds.
    pub proof fn keys_ascend(&self)
        requires
            self.wf(),
        ensures
            forall|i: int, j: int|
                #![trigger self.keys()[i], self.keys()[j]]
                0 <= i < j < self.keys().len() ==> lex_less(self.keys()[i], self.keys()[j]),
            forall|i: int|
                0 <= i < self.keys().len() ==> self@.dom().contains(#[trigger] self.keys()[i]),
            forall|key: Seq<char>| #[trigger]
                self@.dom().contains(key) ==> exists|i: int|
                    0 <= i < self.keys().len() && #[trigger] self.keys()[i] == key,
    {
        assert forall|i: int, j: int|
            #![trigger self.keys()[i], self.keys()[j]]
            0 <= i < j < self.keys().len() implies lex_less(self.keys()[i], self.keys()[j]) by {
            assert(self.keys()[i] == self.rows@[i].key());
            assert(self.keys()[j] == self.rows@[j].key());
        }
        assert forall|i: int| 0 <= i < self.keys().len() implies self@.dom().contains(
            #[trigger] self.keys()[i],
        ) by {
            assert(self.keys()[i] == self.rows@[i].key());
        }
        assert forall|key: Seq<char>| #[trigger] self@.dom().contains(key) implies exists|i: int|
            0 <= i < self.keys().len() && #[trigger] self.keys()[i] == key by {
            let i = self.place(key);
            assert(self.rows@[i].key() == key);
            assert(self.keys()[i] == key);
        }
    }

    /// A row stands where its key says.
    proof fn row_at(&self, i: int)
        requires
            self.wf(),
            0 <= i < self.rows@.len(),
        ensures
            self@.dom().contains(self.rows@[i].key()),
            self@[self.rows@[i].key()] == self.rows@[i]@,
    {
        let key = self.rows@[i].key();
        assert(self.holds(key));
        let p = self.place(key);
        assert(self.rows@[p].key() == key);
        if p != i {
            lex_less_irreflexive(key);
        }
    }

    /// An empty table.
    pub fn new() -> (r: Self)
        ensures
            r.wf(),
            r@ == Map::<Seq<char>, T::V>::empty(),
            r.keys().len() == 0,
    {
        let r = Table { rows: Vec::new() };
        assert(r@ =~= Map::<Seq<char>, T::V>::empty());
        r
    }

    /// The place of a key, or the place where it would have to stand.
    fn find(&self, key: &str) -> (r: Result<usize, usize>)
        requires
            self.wf(),
        ensures
            match r {
                Ok(i) => i < self.rows@.len() && self.rows@[i as int].key() == key@,
                Err(i) => {
                    &&& i <= self.rows@.len()
                    &&& forall|j: int|
                        0 <= j < i ==> lex_less((#[trigger] self.rows@[j]).key(), key@)
                    &&& forall|j: int|
                        i <= j < self.rows@.len() ==> lex_less(
                            key@,
                            (#[trigger] self.rows@[j]).key(),
                        )
                },
            },
    {
        let mut low: usize = 0;
        let mut high: usize = self.rows.len();
        while low < high
            invariant
                self.wf(),
                low <= high <= self.rows@.len(),
                forall|j: int| 0 <= j < low ==> lex_less((#[trigger] self.rows@[j]).key(), key@),
                forall|j: int|
                    high <= j < self.rows@.len() ==> lex_less(
                        key@,
                        (#[trigger] self.rows@[j]).key(),
                    ),
            decreases high - low,
        {
            let mid: usize = low + (high - low) / 2;
            let found = self.rows[mid].key_text();
            if text_eq(found.as_str(), key) {
                return Ok(mid);
            }
            let ghost here = self.rows@[mid as int].key();
            if text_less(found.as_str(), key) {
                assert forall|j: int| 0 <= j < mid + 1 implies lex_less(
                    (#[trigger] self.rows@[j]).key(),
                    key@,
                ) by {
                    if j < mid {
                        lex_less_transitive(self.rows@[j].key(), here, key@);
                    }
                }
                low = mid + 1;
            } else {
                proof {
                    lex_less_total(here, key@);
                }
                assert forall|j: int| mid <= j < self.rows@.len() implies lex_less(
                    key@,
                    (#[trigger] self.rows@[j]).key(),
                ) by {
                    if j > mid {
                        lex_less_transitive(key@, here, self.rows@[j].key());
                    }
                }
                high = mid;
            }
        }
        Err(low)
    }

    /// A key between its neighbours stands nowhere in the table.
    proof fn absent(&self, key: Seq<char>, i: int)
        requires
            0 <= i <= self.rows@.len(),
            forall|j: int| 0 <= j < i ==> lex_less((#[trigger] self.rows@[j]).key(), key),
            forall|j: int|
                i <= j < self.rows@.len() ==> lex_less(key, (#[trigger] self.rows@[j]).key()),
        ensures
            !self@.dom().contains(key),
    {
        lex_less_irreflexive(key);
    }

    /// The row with a key, if there is one.
    pub fn get(&self, key: &str) -> (r: Option<&T>)
        requires
            self.wf(),
        ensures
            match r {
                Some(row) => self@.dom().contains(key@) && row@ == self@[key@] && row.key() == key@,
                None => !self@.dom().contains(key@),
            },
    {
        match self.find(key) {
            Ok(i) => {
                proof {
                    self.row_at(i as int);
                }
                Some(&self.rows[i])
            },
            Err(i) => {
                proof {
                    self.absent(key@, i as int);
                }
                None
            },
        }
    }

    /// Puts a row in the place of the one with the same key, or adds it.
    pub fn put(&mut self, row: T)
        requires
            old(self).wf(),
        ensures
            final(self).wf(),
            final(self)@ == old(self)@.insert(row.key(), row@),
    {
        let ghost key = row.key();
        let ghost before = *self;
        let found = self.find(row.key_text().as_str());
        match found {
            Ok(i) => {
                let ghost model = row@;
                self.rows[i] = row;
                proof {
                    assert(self.rows@ =~= before.rows@.update(i as int, row));
                    assert(self.wf());
                    assert forall|k: Seq<char>| self@.dom().contains(k) <==> #[trigger]
                        before@.insert(key, model).dom().contains(k) by {
                        if self.holds(k) {
                            let p = self.place(k);
                            assert(self.rows@[p].key() == k);
                            assert(before.rows@[p].key() == k);
                        }
                        if before.holds(k) {
                            let p = before.place(k);
                            assert(before.rows@[p].key() == k);
                            assert(self.rows@[p].key() == k);
                        }
                        if k == key {
                            assert(self.rows@[i as int].key() == k);
                        }
                    }
                    assert forall|k: Seq<char>| #[trigger] self@.dom().contains(k) implies self@[k]
                        == before@.insert(key, model)[k] by {
                        let p = self.place(k);
                        assert(self.rows@[p].key() == k);
                        self.row_at(p);
                        before.row_at(p);
                        if k == key && p != i {
                            lex_less_irreflexive(key);
                        }
                    }
                    assert(self@ =~= before@.insert(key, model));
                }
            },
            Err(i) => {
                let ghost model = row@;
                self.rows.insert(i, row);
                proof {
                    assert(self.rows@ =~= before.rows@.insert(i as int, row));
                    assert forall|a: int, b: int|
                        #![trigger self.rows@[a], self.rows@[b]]
                        0 <= a < b < self.rows@.len() implies lex_less(
                        self.rows@[a].key(),
                        self.rows@[b].key(),
                    ) by {
                        let x = if a < i { a } else { a - 1 };
                        let y = if b < i { b } else { b - 1 };
                        if a == i {
                            assert(self.rows@[b] == before.rows@[b - 1]);
                        } else if b == i {
                            assert(self.rows@[a] == before.rows@[a]);
                        } else {
                            assert(self.rows@[a] == before.rows@[x]);
                            assert(self.rows@[b] == before.rows@[y]);
                        }
                    }
                    assert forall|k: Seq<char>| self@.dom().contains(k) <==> #[trigger]
                        before@.insert(key, model).dom().contains(k) by {
                        if self.holds(k) {
                            let p = self.place(k);
                            assert(self.rows@[p].key() == k);
                            if p < i {
                                assert(before.rows@[p].key() == k);
                            } else if p > i {
                                assert(before.rows@[p - 1].key() == k);
                            }
                        }
                        if before.holds(k) {
                            let p = before.place(k);
                            assert(before.rows@[p].key() == k);
                            if p < i {
                                assert(self.rows@[p].key() == k);
                            } else {
                                assert(self.rows@[p + 1].key() == k);
                            }
                        }
                        if k == key {
                            assert(self.rows@[i as int].key() == k);
                        }
                    }
                    before.absent(key, i as int);
                    assert forall|k: Seq<char>| #[trigger] self@.dom().contains(k) implies self@[k]
                        == before@.insert(key, model)[k] by {
                        let p = self.place(k);
                        assert(self.rows@[p].key() == k);
                        self.row_at(p);
                        if p < i {
                            before.row_at(p);
                        } else if p > i {
                            before.row_at(p - 1);
                        }
                        if k == key && p != i {
                            self.row_at(i as int);
                            lex_less_irreflexive(key);
                        }
                    }
                    assert(self@ =~= before@.insert(key, model));
                }
            },
        }
    }

    /// Removes the row with a key, if there is one.
    pub fn remove(&mut self, key: &str)
        requires
            old(self).wf(),
        ensures
            final(self).wf(),
            final(self)@ == old(self)@.remove(key@),
    {
        let ghost before = *self;
        match self.find(key) {
            Ok(i) => {
                let _row = self.rows.remove(i);
                proof {
                    assert(self.rows@ =~= before.rows@.remove(i as int));
                    assert forall|a: int, b: int|
                        #![trigger self.rows@[a], self.rows@[b]]
                        0 <= a < b < self.rows@.len() implies lex_less(
                        self.rows@[a].key(),
                        self.rows@[b].key(),
                    ) by {
                        let x = if a < i { a } else { a + 1 };
                        let y = if b < i { b } else { b + 1 };
                        assert(self.rows@[a] == before.rows@[x]);
                        assert(self.rows@[b] == before.rows@[y]);
                    }
                    assert forall|k: Seq<char>| self@.dom().contains(k) <==> #[trigger]
                        before@.remove(key@).dom().contains(k) by {
                        if self.holds(k) {
                            let p = self.place(k);
                            assert(self.rows@[p].key() == k);
                            let q = if p < i { p } else { p + 1 };
                            assert(before.rows@[q].key() == k);
                            if k == key@ {
                                lex_less_irreflexive(key@);
                            }
                        }
                        if before.holds(k) && k != key@ {
                            let p = before.place(k);
                            assert(before.rows@[p].key() == k);
                            let q = if p < i { p } else { p - 1 };
                            assert(self.rows@[q].key() == k);
                        }
                    }
                    assert forall|k: Seq<char>| #[trigger] self@.dom().contains(k) implies self@[k]
                        == before@.remove(key@)[k] by {
                        let p = self.place(k);
                        assert(self.rows@[p].key() == k);
                        self.row_at(p);
                        let q = if p < i { p } else { p + 1 };
                        assert(before.rows@[q] == self.rows@[p]);
                        before.row_at(q);
                        assert(before@.remove(key@).dom().contains(k));
                    }
                    assert(self@ =~= before@.remove(key@));
                }
            },
            Err(i) => {
                proof {
                    before.absent(key@, i as int);
                    assert(self@ =~= before@.remove(key@));
                }
            },
        }
    }

    /// The number of rows.
    pub fn len(&self) -> (r: usize)
        ensures
            r == self.keys().len(),
    {
        self.rows.len()
    }

    /// The row at a place in key order.
    pub fn at(&self, i: usize) -> (r: &T)
        requires
            self.wf(),
            i < self.keys().len(),
        ensures
            r.key() == self.keys()[i as int],
            self@.dom().contains(r.key()),
            r@ == self@[r.key()],
    {
        proof {
            self.row_at(i as int);
        }
        &self.rows[i]
    }
}

} // verus!
