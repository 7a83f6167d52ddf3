//! A table keyed by strings: every key at most once, the entries in the
//! order in which their keys first came.
use vstd::prelude::*;
use vstd::utf8::{encode_utf8, encode_utf8_decode_utf8};

verus! {

/// Whether two strings are the same.
pub fn same_text(a: &str, b: &str) -> (same: bool)
    ensures
        same == (a@ == b@),
{
    let x = a.as_bytes();
    let y = b.as_bytes();
    proof {
        encode_utf8_decode_utf8(a@);
        encode_utf8_decode_utf8(b@);
    }
    if x.len() != y.len() {
        return false;
    }
    let mut i: usize = 0;
    while i < x.len()
        invariant
            i <= x@.len(),
            x@.len() == y@.len(),
            x@ == encode_utf8(a@),
            y@ == encode_utf8(b@),
            x@.take(i as int) == y@.take(i as int),
        decreases x@.len() - i,
    {
        if x[i] != y[i] {
            assert(x@[i as int] != y@[i as int]);
            return false;
        }
        assert(x@.take(i + 1) =~= x@.take(i as int).push(x@[i as int]));
        assert(y@.take(i + 1) =~= y@.take(i as int).push(y@[i as int]));
        i = i + 1;
    }
    assert(x@ =~= x@.take(i as int));
    assert(y@ =~= y@.take(i as int));
    true
}

/// The first place from `from` on at which `key` stands in `entries`, or
/// the number of entries where it stands at none.
pub open spec fn place<V>(entries: Seq<(Seq<char>, V)>, key: Seq<char>, from: int) -> int
    decreases entries.len() - from,
{
    if from < 0 || from >= entries.len() || entries[from].0 == key {
        from
    } else {
        place(entries, key, from + 1)
    }
}

/// The entries after `key` got the value `value`: in place of the value
/// that it had, or as a new entry after the others.
pub open spec fn put<V>(entries: Seq<(Seq<char>, V)>, key: Seq<char>, value: V) -> Seq<
    (Seq<char>, V),
> {
    let i = place(entries, key, 0);
    if 0 <= i < entries.len() {
        entries.update(i, (key, value))
    } else {
        entries.push((key, value))
    }
}

/// The entries without the one of `key`.
pub open spec fn without<V>(entries: Seq<(Seq<char>, V)>, key: Seq<char>) -> Seq<
    (Seq<char>, V),
> {
    let i = place(entries, key, 0);
    if 0 <= i < entries.len() {
        entries.remove(i)
    } else {
        entries
    }
}

/// A table from strings to values.
#[derive(Debug)]
pub struct Table<V> {
    pub entries: Vec<(String, V)>,
}

impl<V> Table<V> {
    /// The keys, in the order of the entries.
    pub open spec fn keys(&self) -> Seq<Seq<char>> {
        Seq::new(self.entries@.len(), |i: int| self.entries@[i].0@)
    }

    /// The keys with their values, in the order of the entries.
    pub open spec fn pairs(&self) -> Seq<(Seq<char>, V)> {
        Seq::new(self.entries@.len(), |i: int| (self.entries@[i].0@, self.entries@[i].1))
    }

    /// No key stands twice.
    pub open spec fn wf(&self) -> bool {
        forall|i: int, j: int|
            0 <= i < j < self.entries@.len() ==> self.entries@[i].0@ != self.entries@[j].0@
    }

    /// Whether the table holds `key`.
    pub open spec fn has(&self, key: Seq<char>) -> bool {
        exists|i: int| 0 <= i < self.entries@.len() && self.entries@[i].0@ == key
    }

    /// The place of `key` in the table that holds it.
    pub open spec fn index_of(&self, key: Seq<char>) -> int {
        choose|i: int| 0 <= i < self.entries@.len() && self.entries@[i].0@ == key
    }

    /// The value of `key` in the table that holds it.
    pub open spec fn value_of(&self, key: Seq<char>) -> V {
        self.entries@[self.index_of(key)].1
    }

    /// The table as a map.
    pub open spec fn view(&self) -> Map<Seq<char>, V> {
        Map::new(|key: Seq<char>| self.has(key), |key: Seq<char>| self.value_of(key))
    }

    /// In a well-formed table the place of a key is the one place where it
    /// stands.
    pub proof fn lemma_index(&self, i: int)
        requires
            self.wf(),
            0 <= i < self.entries@.len(),
        ensures
            self.has(self.entries@[i].0@),
            self.index_of(self.entries@[i].0@) == i,
            self.value_of(self.entries@[i].0@) == self.entries@[i].1,
    {
        let key = self.entries@[i].0@;
        let j = self.index_of(key);
        if j < i {
            assert(self.entries@[j].0@ != self.entries@[i].0@);
        } else if i < j {
            assert(self.entries@[i].0@ != self.entries@[j].0@);
        }
    }

    /// Whether no key stands twice.
    pub fn is_wf(&self) -> (b: bool)
        ensures
            b == self.wf(),
    {
        let mut j: usize = 0;
        while j < self.entries.len()
            invariant
                j <= self.entries@.len(),
                forall|a: int, b: int|
                    0 <= a < b < j ==> self.entries@[a].0@ != self.entries@[b].0@,
            decreases self.entries@.len() - j,
        {
            let mut i: usize = 0;
            while i < j
                invariant
                    i <= j < self.entries@.len(),
                    forall|a: int| 0 <= a < i ==> self.entries@[a].0@ != self.entries@[j as int].0@,
                decreases j - i,
            {
                if same_text(self.entries[i].0.as_str(), self.entries[j].0.as_str()) {
                    return false;
                }
                i = i + 1;
            }
            j = j + 1;
        }
        true
    }

    /// The table without entries.
    pub fn new() -> (t: Self)
        ensures
            t.wf(),
            t.entries@.len() == 0,
            t@ == Map::<Seq<char>, V>::empty(),
    {
        let t = Table { entries: Vec::new() };
        assert(t@ =~= Map::<Seq<char>, V>::empty());
        t
    }

    /// The number of entries.
    pub fn len(&self) -> (n: usize)
        ensures
            n == self.entries@.len(),
    {
        self.entries.len()
    }

    /// The place of `key`, if the table holds it.
    pub fn position(&self, key: &str) -> (r: Option<usize>)
        requires
            self.wf(),
        ensures
            match r {
                Some(i) => i < self.entries@.len() && self.entries@[i as int].0@ == key@
                    && self.has(key@) && self.index_of(key@) == i && place(self.pairs(), key@, 0)
                    == i,
                None => !self.has(key@) && place(self.pairs(), key@, 0) == self.entries@.len(),
            },
    {
        let mut i: usize = 0;
        while i < self.entries.len()
            invariant
                self.wf(),
                i <= self.entries@.len(),
                forall|k: int| 0 <= k < i ==> self.entries@[k].0@ != key@,
                place(self.pairs(), key@, 0) == place(self.pairs(), key@, i as int),
            decreases self.entries@.len() - i,
        {
            if same_text(self.entries[i].0.as_str(), key) {
                proof {
                    self.lemma_index(i as int);
                }
                return Some(i);
            }
            i = i + 1;
        }
        None
    }

    /// A reference to the value at place `i`.
    pub fn value_at(&self, i: usize) -> (v: &V)
        requires
            i < self.entries@.len(),
        ensures
            *v == self.entries@[i as int].1,
    {
        &self.entries[i].1
    }

    /// A reference through which the value at place `i` can be changed.
    pub fn value_at_mut(&mut self, i: usize) -> (v: &mut V)
        requires
            i < old(self).entries@.len(),
        ensures
            *v == old(self).entries@[i as int].1,
            final(self).entries@ == old(self).entries@.update(
                i as int,
                (old(self).entries@[i as int].0, *final(v)),
            ),
    {
        &mut self.entries[i].1
    }

    /// A reference to the key at place `i`.
    pub fn key_at(&self, i: usize) -> (k: &String)
        requires
            i < self.entries@.len(),
        ensures
            *k == self.entries@[i as int].0,
    {
        &self.entries[i].0
    }

    /// Puts `value` in place of the value at place `i` and gives the old
    /// value back.
    pub fn replace_at(&mut self, i: usize, value: V) -> (previous: V)
        requires
            old(self).wf(),
            i < old(self).entries@.len(),
        ensures
            final(self).wf(),
            final(self).entries@.len() == old(self).entries@.len(),
            final(self).keys() == old(self).keys(),
            final(self).entries@[i as int].1 == value,
            previous == old(self).entries@[i as int].1,
            forall|k: int|
                0 <= k < final(self).entries@.len() ==> #[trigger] final(self).entries@[k].0
                    == old(self).entries@[k].0,
            forall|k: int|
                0 <= k < final(self).entries@.len() && k != i ==> #[trigger] final(self).entries@[k].1
                    == old(self).entries@[k].1,
            final(self)@ == old(self)@.insert(old(self).entries@[i as int].0@, value),
            final(self).entries@ == old(self).entries@.update(
                i as int,
                (old(self).entries@[i as int].0, value),
            ),
    {
        let (key, previous) = self.entries.remove(i);
        self.entries.insert(i, (key, value));
        proof {
            assert(self.entries@ =~= old(self).entries@.update(
                i as int,
                (old(self).entries@[i as int].0, value),
            ));
            assert(self.keys() =~= old(self).keys());
            let added = old(self).entries@[i as int].0@;
            assert forall|k: Seq<char>| self.has(k) == old(self).has(k) by {
                if self.has(k) {
                    let j = self.index_of(k);
                    assert(old(self).entries@[j].0@ == k);
                }
                if old(self).has(k) {
                    let j = old(self).index_of(k);
                    assert(self.entries@[j].0@ == k);
                }
            }
            assert forall|k: Seq<char>| self.has(k) implies self.value_of(k) == (if k == added {
                value
            } else {
                old(self).value_of(k)
            }) by {
                let j = self.index_of(k);
                self.lemma_index(j);
                old(self).lemma_index(j);
            }
            old(self).lemma_index(i as int);
            assert(self@ =~= old(self)@.insert(added, value));
        }
        previous
    }

    /// Gives `key` the value `value`: in place of the value that it had, or
    /// as a new entry after the others. The result is the value that the
    /// key had.
    pub fn insert(&mut self, key: String, value: V) -> (previous: Option<V>)
        requires
            old(self).wf(),
        ensures
            final(self).wf(),
            final(self)@ == old(self)@.insert(key@, value),
            final(self).pairs() == put(old(self).pairs(), key@, value),
            match previous {
                Some(v) => old(self).has(key@) && v == old(self).value_of(key@)
                    && final(self).keys() == old(self).keys(),
                None => !old(self).has(key@) && final(self).entries@ == old(self).entries@.push(
                    (key, value),
                ),
            },
    {
        match self.position(key.as_str()) {
            Some(i) => {
                let previous = self.replace_at(i, value);
                assert(self.pairs() =~= put(old(self).pairs(), key@, value));
                Some(previous)
            },
            None => {
                self.entries.push((key, value));
                proof {
                    assert(self.pairs() =~= put(old(self).pairs(), key@, value));
                    let n = old(self).entries@.len() as int;
                    assert forall|k: Seq<char>| self.has(k) == (k == key@ || old(self).has(k)) by {
                        if self.has(k) {
                            let j = self.index_of(k);
                            if j < n {
                                assert(old(self).entries@[j].0@ == k);
                            }
                        }
                        if old(self).has(k) {
                            let j = old(self).index_of(k);
                            assert(self.entries@[j].0@ == k);
                        }
                        if k == key@ {
                            assert(self.entries@[n].0@ == k);
                        }
                    }
                    assert forall|k: Seq<char>| self.has(k) implies self.value_of(k) == (if k
                        == key@ {
                        value
                    } else {
                        old(self).value_of(k)
                    }) by {
                        let j = self.index_of(k);
                        self.lemma_index(j);
                        if j < n {
                            old(self).lemma_index(j);
                        }
                    }
                    assert(self@ =~= old(self)@.insert(key@, value));
                }
                None
            },
        }
    }

    /// Takes the entry at place `i` out of the table.
    pub fn remove_at(&mut self, i: usize) -> (entry: (String, V))
        requires
            old(self).wf(),
            i < old(self).entries@.len(),
        ensures
            final(self).wf(),
            entry == old(self).entries@[i as int],
            final(self).entries@ == old(self).entries@.remove(i as int),
            final(self).pairs() == old(self).pairs().remove(i as int),
            final(self)@ == old(self)@.remove(entry.0@),
            !final(self).has(entry.0@),
    {
        let entry = self.entries.remove(i);
        proof {
            assert(self.pairs() =~= old(self).pairs().remove(i as int));
            let gone = entry.0@;
            assert forall|k: Seq<char>| self.has(k) == (k != gone && old(self).has(k)) by {
                if self.has(k) {
                    let j = self.index_of(k);
                    if j < i {
                        assert(old(self).entries@[j].0@ == k);
                    } else {
                        assert(old(self).entries@[j + 1].0@ == k);
                    }
                }
                if old(self).has(k) && k != gone {
                    let j = old(self).index_of(k);
                    if j < i {
                        assert(self.entries@[j].0@ == k);
                    } else {
                        assert(self.entries@[j - 1].0@ == k);
                    }
                }
            }
            assert forall|k: Seq<char>| self.has(k) implies self.value_of(k) == old(self).value_of(
                k,
            ) by {
                let j = self.index_of(k);
                self.lemma_index(j);
                if j < i {
                    old(self).lemma_index(j);
                } else {
                    old(self).lemma_index(j + 1);
                }
            }
            assert(self@ =~= old(self)@.remove(gone));
        }
        entry
    }

    /// Takes `key` out of the table and gives its value back, if the table
    /// held it.
    pub fn remove(&mut self, key: &str) -> (previous: Option<V>)
        requires
            old(self).wf(),
        ensures
            final(self).wf(),
            final(self)@ == old(self)@.remove(key@),
            final(self).pairs() == without(old(self).pairs(), key@),
            !final(self).has(key@),
            match previous {
                Some(v) => old(self).has(key@) && v == old(self).value_of(key@)
                    && final(self).entries@ == old(self).entries@.remove(old(self).index_of(key@)),
                None => !old(self).has(key@) && final(self).entries@ == old(self).entries@,
            },
    {
        match self.position(key) {
            Some(i) => {
                let entry = self.remove_at(i);
                assert(self.pairs() =~= without(old(self).pairs(), key@));
                Some(entry.1)
            },
            None => {
                assert(self@ =~= old(self)@.remove(key@));
                None
            },
        }
    }
}

} // verus!
