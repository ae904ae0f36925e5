//! Small ordered tables: records by number, and values by name.

use crate::text;
use vstd::prelude::*;

verus! {

/// Records by number, kept by rising number.
#[derive(Debug)]
pub struct IdTable<V> {
    entries: Vec<(i64, V)>,
}

/// Whether some entry has a number.
pub open spec fn has_id<V>(entries: Seq<(i64, V)>, id: i64) -> bool {
    exists|i: int| 0 <= i < entries.len() && (#[trigger] entries[i]).0 == id
}

/// The place of the entry with a number.
pub open spec fn place_of_id<V>(entries: Seq<(i64, V)>, id: i64) -> int {
    choose|i: int| 0 <= i < entries.len() && (#[trigger] entries[i]).0 == id
}

/// What entries hold, by number.
pub open spec fn by_id<V>(entries: Seq<(i64, V)>) -> Map<i64, V> {
    Map::new(|id: i64| has_id(entries, id), |id: i64| entries[place_of_id(entries, id)].1)
}

/// Whether the numbers of entries rise.
pub open spec fn ids_rise<V>(entries: Seq<(i64, V)>) -> bool {
    forall|i: int, j: int|
        0 <= i < j < entries.len() ==> (#[trigger] entries[i]).0 < (#[trigger] entries[j]).0
}

proof fn lemma_by_id<V>(entries: Seq<(i64, V)>, i: int)
    requires
        ids_rise(entries),
        0 <= i < entries.len(),
    ensures
        by_id(entries).contains_key(entries[i].0),
        by_id(entries)[entries[i].0] == entries[i].1,
{
    let id = entries[i].0;
    assert(has_id(entries, id));
    let p = place_of_id(entries, id);
    assert(entries[p].0 == id);
    if p < i {
        assert(entries[p].0 < entries[i].0);
    } else if i < p {
        assert(entries[i].0 < entries[p].0);
    }
}

impl<V> View for IdTable<V> {
    type V = Map<i64, V>;

    closed spec fn view(&self) -> Map<i64, V> {
        by_id(self.entries@)
    }
}

impl<V> IdTable<V> {
    pub closed spec fn well_formed(&self) -> bool {
        ids_rise(self.entries@)
    }

    /// The numbers, by rising number.
    pub closed spec fn ids(&self) -> Seq<i64> {
        Seq::new(self.entries@.len(), |i: int| self.entries@[i].0)
    }

    /// The records, in the order of their numbers.
    pub closed spec fn values(&self) -> Seq<V> {
        Seq::new(self.entries@.len(), |i: int| self.entries@[i].1)
    }

    pub fn new() -> (table: Self)
        ensures
            table.well_formed(),
            table@ == Map::<i64, V>::empty(),
    {
        let table = IdTable { entries: Vec::new() };
        assert(table@ =~= Map::<i64, V>::empty());
        table
    }

    pub fn len(&self) -> (len: usize)
        ensures
            len == self.ids().len(),
    {
        self.entries.len()
    }

    /// The record at a place, with its number.
    pub fn at(&self, i: usize) -> (entry: (i64, &V))
        requires
            self.well_formed(),
            i < self.ids().len(),
        ensures
            entry.0 == self.ids()[i as int],
            self@.contains_key(entry.0),
            self@[entry.0] == *entry.1,
    {
        proof {
            lemma_by_id(self.entries@, i as int);
        }
        (self.entries[i].0, &self.entries[i].1)
    }

    /// Every number of the table has a place.
    pub proof fn lemma_ids(&self)
        requires
            self.well_formed(),
        ensures
            forall|id: i64|
                #[trigger] self@.contains_key(id) <==> exists|i: int|
                    0 <= i < self.ids().len() && #[trigger] self.ids()[i] == id,
            forall|i: int, j: int|
                0 <= i < j < self.ids().len() ==> #[trigger] self.ids()[i]
                    < #[trigger] self.ids()[j],
    {
        assert forall|id: i64| #[trigger] self@.contains_key(id) implies exists|i: int|
            0 <= i < self.ids().len() && #[trigger] self.ids()[i] == id by {
            let p = place_of_id(self.entries@, id);
            assert(self.ids()[p] == id);
        }
        assert forall|id: i64| (exists|i: int|
            0 <= i < self.ids().len() && #[trigger] self.ids()[i] == id) implies #[trigger] self@.contains_key(id) by {
            let i = choose|i: int| 0 <= i < self.ids().len() && #[trigger] self.ids()[i] == id;
            lemma_by_id(self.entries@, i);
        }
    }

    /// The place at which a number stands or would stand.
    fn place(&self, id: i64) -> (at: usize)
        requires
            self.well_formed(),
        ensures
            at <= self.entries@.len(),
            forall|i: int| 0 <= i < at ==> (#[trigger] self.entries@[i]).0 < id,
            forall|i: int| at <= i < self.entries@.len() ==> (#[trigger] self.entries@[i]).0 >= id,
    {
        let mut at: usize = self.entries.len();
        while at > 0 && self.entries[at - 1].0 >= id
            invariant
                at <= self.entries@.len(),
                forall|i: int|
                    at <= i < self.entries@.len() ==> (#[trigger] self.entries@[i]).0 >= id,
            decreases at,
        {
            at -= 1;
        }
        proof {
            if at > 0 {
                assert forall|i: int| 0 <= i < at implies (#[trigger] self.entries@[i]).0 < id by {
                    if i < at - 1 {
                        assert(self.entries@[i].0 < self.entries@[at - 1].0);
                    }
                }
            }
        }
        at
    }

    pub fn get(&self, id: i64) -> (found: Option<&V>)
        requires
            self.well_formed(),
        ensures
            match found {
                Some(value) => self@.contains_key(id) && self@[id] == *value,
                None => !self@.contains_key(id),
            },
    {
        let at = self.place(id);
        if at < self.entries.len() && self.entries[at].0 == id {
            proof {
                lemma_by_id(self.entries@, at as int);
            }
            Some(&self.entries[at].1)
        } else {
            proof {
                if has_id(self.entries@, id) {
                    let i = choose|i: int|
                        0 <= i < self.entries@.len() && (#[trigger] self.entries@[i]).0 == id;
                    if at < i {
                        assert(self.entries@[at as int].0 < self.entries@[i].0);
                    }
                }
            }
            None
        }
    }

    /// Stores a record under a number, in place of the one that was there.
    pub fn set(&mut self, id: i64, value: V)
        requires
            old(self).well_formed(),
        ensures
            final(self).well_formed(),
            final(self)@ == old(self)@.insert(id, value),
    {
        let at = self.place(id);
        let ghost before = self.entries@;
        if at < self.entries.len() && self.entries[at].0 == id {
            self.entries.set(at, (id, value));
            proof {
                assert(ids_rise(self.entries@));
                assert forall|k: i64| #[trigger] has_id(self.entries@, k) == (has_id(before, k) || k
                    == id) by {
                    if has_id(before, k) {
                        let i = choose|i: int|
                            0 <= i < before.len() && (#[trigger] before[i]).0 == k;
                        assert(self.entries@[i].0 == k);
                    }
                    if k == id {
                        assert(self.entries@[at as int].0 == k);
                    }
                    if has_id(self.entries@, k) {
                        let i = choose|i: int|
                            0 <= i < self.entries@.len() && (#[trigger] self.entries@[i]).0 == k;
                        assert(before[i].0 == k);
                    }
                }
            }
        } else {
            self.entries.insert(at, (id, value));
            proof {
                if at < before.len() {
                    assert(before[at as int].0 > id);
                    assert forall|i: int| at <= i < before.len() implies (#[trigger] before[i]).0
                        > id by {
                        if i > at {
                            assert(before[at as int].0 < before[i].0);
                        }
                    }
                }
                assert forall|i: int, j: int| 0 <= i < j < self.entries@.len() implies (
                #[trigger] self.entries@[i]).0 < (#[trigger] self.entries@[j]).0 by {
                    let a = if i < at { i } else { i - 1 };
                    let b = if j < at { j } else { j - 1 };
                    if i != at && j != at {
                        assert(before[a].0 < before[b].0);
                    }
                }
                assert forall|k: i64| #[trigger] has_id(self.entries@, k) == (has_id(before, k) || k
                    == id) by {
                    if has_id(before, k) {
                        let i = choose|i: int|
                            0 <= i < before.len() && (#[trigger] before[i]).0 == k;
                        let x = if i < at { i } else { i + 1 };
                        assert(self.entries@[x].0 == k);
                    }
                    if k == id {
                        assert(self.entries@[at as int].0 == k);
                    }
                    if has_id(self.entries@, k) {
                        let i = choose|i: int|
                            0 <= i < self.entries@.len() && (#[trigger] self.entries@[i]).0 == k;
                        if i != at {
                            let x = if i < at { i } else { i - 1 };
                            assert(before[x].0 == k);
                        }
                    }
                }
            }
        }
        proof {
            assert forall|k: i64| has_id(self.entries@, k) implies #[trigger] by_id(
                self.entries@,
            )[k] == by_id(before).insert(id, value)[k] by {
                if k == id {
                    lemma_by_id(self.entries@, at as int);
                } else {
                    let i = choose|i: int| 0 <= i < before.len() && (#[trigger] before[i]).0 == k;
                    assert(has_id(before, k));
                    let i = place_of_id(before, k);
                    lemma_by_id(before, i);
                    let x = if self.entries@.len() == before.len() || i < at { i } else { i + 1 };
                    assert(self.entries@[x] == before[i]);
                    lemma_by_id(self.entries@, x);
                }
            }
            assert(self@ =~= old(self)@.insert(id, value));
        }
    }

    /// Keeps the records with the `n` largest numbers.
    pub fn keep_newest(&mut self, n: usize)
        requires
            old(self).well_formed(),
            n > 0,
        ensures
            final(self).well_formed(),
            newest_of(old(self)@, old(self).ids(), n as int) == final(self)@,
    {
        let len: usize = self.entries.len();
        if len > n {
            let ghost before = self.entries@;
            let kept = self.entries.split_off(len - n);
            self.entries = kept;
            proof {
                let cut = len - n;
                assert(self.entries@ =~= before.subrange(cut as int, len as int));
                assert forall|i: int, j: int| 0 <= i < j < self.entries@.len() implies (
                #[trigger] self.entries@[i]).0 < (#[trigger] self.entries@[j]).0 by {
                    assert(before[i + cut].0 < before[j + cut].0);
                }
                let ids = old(self).ids();
                assert forall|k: i64| #[trigger] has_id(self.entries@, k) == (has_id(before, k) && k
                    >= ids[cut as int]) by {
                    if has_id(self.entries@, k) {
                        let i = choose|i: int|
                            0 <= i < self.entries@.len() && (#[trigger] self.entries@[i]).0 == k;
                        assert(before[i + cut].0 == k);
                        if i > 0 {
                            assert(before[cut as int].0 < before[i + cut].0);
                        }
                    }
                    if has_id(before, k) && k >= ids[cut as int] {
                        let i = choose|i: int| 0 <= i < before.len() && (#[trigger] before[i]).0 == k;
                        if i < cut {
                            assert(before[i].0 < before[cut as int].0);
                        }
                        assert(self.entries@[i - cut].0 == k);
                    }
                }
                assert forall|k: i64| has_id(self.entries@, k) implies #[trigger] by_id(
                    self.entries@,
                )[k] == by_id(before)[k] by {
                    let i = place_of_id(self.entries@, k);
                    assert(self.entries@[i].0 == k);
                    lemma_by_id(self.entries@, i);
                    lemma_by_id(before, i + cut);
                    assert(before[i + cut] == self.entries@[i]);
                }
                assert(self@ =~= newest_of(old(self)@, ids, n as int));
            }
        } else {
            assert(self@ =~= newest_of(old(self)@, old(self).ids(), n as int));
        }
    }
}

/// What is left of a table when only the records with the `n` largest numbers are kept.
pub open spec fn newest_of<V>(table: Map<i64, V>, ids: Seq<i64>, n: int) -> Map<i64, V> {
    if ids.len() <= n {
        table
    } else {
        table.restrict(Set::new(|id: i64| id >= ids[ids.len() - n]))
    }
}

/// Values by name.
#[derive(Debug)]
pub struct KeyTable<V> {
    entries: Vec<(String, V)>,
}

/// Whether some entry has a name.
pub open spec fn has_key<V>(entries: Seq<(String, V)>, key: Seq<char>) -> bool {
    exists|i: int| 0 <= i < entries.len() && (#[trigger] entries[i]).0@ == key
}

/// The place of the entry with a name.
pub open spec fn place_of_key<V>(entries: Seq<(String, V)>, key: Seq<char>) -> int {
    choose|i: int| 0 <= i < entries.len() && (#[trigger] entries[i]).0@ == key
}

/// What entries hold, by name.
pub open spec fn by_key<V>(entries: Seq<(String, V)>) -> Map<Seq<char>, V> {
    Map::new(
        |key: Seq<char>| has_key(entries, key),
        |key: Seq<char>| entries[place_of_key(entries, key)].1,
    )
}

/// Whether each name stands once.
pub open spec fn keys_differ<V>(entries: Seq<(String, V)>) -> bool {
    forall|i: int, j: int|
        0 <= i < j < entries.len() ==> (#[trigger] entries[i]).0@ != (#[trigger] entries[j]).0@
}

proof fn lemma_by_key<V>(entries: Seq<(String, V)>, i: int)
    requires
        keys_differ(entries),
        0 <= i < entries.len(),
    ensures
        by_key(entries).contains_key(entries[i].0@),
        by_key(entries)[entries[i].0@] == entries[i].1,
{
    let key = entries[i].0@;
    assert(has_key(entries, key));
    let p = place_of_key(entries, key);
    assert(entries[p].0@ == key);
    if p < i {
        assert(entries[p].0@ != entries[i].0@);
    } else if i < p {
        assert(entries[i].0@ != entries[p].0@);
    }
}

/// Adding an entry with a new name adds it to the table.
proof fn lemma_pushed<V>(entries: Seq<(String, V)>, entry: (String, V))
    requires
        keys_differ(entries),
        !has_key(entries, entry.0@),
    ensures
        keys_differ(entries.push(entry)),
        by_key(entries.push(entry)) == by_key(entries).insert(entry.0@, entry.1),
{
    let more = entries.push(entry);
    assert forall|i: int, j: int| 0 <= i < j < more.len() implies (#[trigger] more[i]).0@ != (
    #[trigger] more[j]).0@ by {
        if j == entries.len() {
            assert(more[i] == entries[i]);
        } else {
            assert(entries[i].0@ != entries[j].0@);
        }
    }
    assert forall|k: Seq<char>| #[trigger] has_key(more, k) == (has_key(entries, k) || k
        == entry.0@) by {
        if has_key(entries, k) {
            let i = place_of_key(entries, k);
            assert(more[i].0@ == k);
        }
        if k == entry.0@ {
            assert(more[entries.len() as int].0@ == k);
        }
        if has_key(more, k) {
            let i = place_of_key(more, k);
            if i < entries.len() {
                assert(entries[i].0@ == k);
            }
        }
    }
    assert forall|k: Seq<char>| has_key(more, k) implies #[trigger] by_key(more)[k] == by_key(
        entries,
    ).insert(entry.0@, entry.1)[k] by {
        if k == entry.0@ {
            lemma_by_key(more, entries.len() as int);
        } else {
            assert(has_key(entries, k));
            let i = place_of_key(entries, k);
            assert(more[i] == entries[i]);
            lemma_by_key(more, i);
            lemma_by_key(entries, i);
        }
    }
    assert(by_key(more) =~= by_key(entries).insert(entry.0@, entry.1));
}

/// Removing an entry removes its name from the table.
proof fn lemma_removed<V>(entries: Seq<(String, V)>, at: int)
    requires
        keys_differ(entries),
        0 <= at < entries.len(),
    ensures
        keys_differ(entries.remove(at)),
        by_key(entries.remove(at)) == by_key(entries).remove(entries[at].0@),
{
    let fewer = entries.remove(at);
    assert forall|i: int, j: int| 0 <= i < j < fewer.len() implies (#[trigger] fewer[i]).0@ != (
    #[trigger] fewer[j]).0@ by {
        let a = if i < at { i } else { i + 1 };
        let b = if j < at { j } else { j + 1 };
        assert(entries[a].0@ != entries[b].0@);
    }
    assert forall|k: Seq<char>| #[trigger] has_key(fewer, k) == (has_key(entries, k) && k
        != entries[at].0@) by {
        if has_key(fewer, k) {
            let i = place_of_key(fewer, k);
            let x = if i < at { i } else { i + 1 };
            assert(entries[x].0@ == k);
            if x < at {
                assert(entries[x].0@ != entries[at].0@);
            } else {
                assert(entries[at].0@ != entries[x].0@);
            }
        }
        if has_key(entries, k) && k != entries[at].0@ {
            let i = place_of_key(entries, k);
            let x = if i < at { i } else { i - 1 };
            assert(fewer[x].0@ == k);
        }
    }
    assert forall|k: Seq<char>| has_key(fewer, k) implies #[trigger] by_key(fewer)[k] == by_key(
        entries,
    )[k] by {
        let i = place_of_key(fewer, k);
        assert(fewer[i].0@ == k);
        let x = if i < at { i } else { i + 1 };
        assert(fewer[i] == entries[x]);
        lemma_by_key(fewer, i);
        lemma_by_key(entries, x);
    }
    assert(by_key(fewer) =~= by_key(entries).remove(entries[at].0@));
}

impl<V> View for KeyTable<V> {
    type V = Map<Seq<char>, V>;

    closed spec fn view(&self) -> Map<Seq<char>, V> {
        by_key(self.entries@)
    }
}

impl<V> KeyTable<V> {
    pub closed spec fn well_formed(&self) -> bool {
        keys_differ(self.entries@)
    }

    /// The names, in the order in which they were added.
    pub closed spec fn keys(&self) -> Seq<Seq<char>> {
        Seq::new(self.entries@.len(), |i: int| self.entries@[i].0@)
    }

    /// The names of the table are those in its list, each once.
    pub proof fn lemma_keys(&self)
        requires
            self.well_formed(),
        ensures
            forall|key: Seq<char>| #[trigger] self@.contains_key(key) <==> self.keys().contains(key),
            self.keys().no_duplicates(),
    {
        assert forall|key: Seq<char>| #[trigger] self@.contains_key(key) == self.keys().contains(
            key,
        ) by {
            if self@.contains_key(key) {
                let i = place_of_key(self.entries@, key);
                assert(self.keys()[i] == key);
            }
            if self.keys().contains(key) {
                let i = choose|i: int| 0 <= i < self.keys().len() && self.keys()[i] == key;
                lemma_by_key(self.entries@, i);
            }
        }
        assert forall|i: int, j: int|
            0 <= i < self.keys().len() && 0 <= j < self.keys().len() && i
                != j implies self.keys()[i] != self.keys()[j] by {
            if i < j {
                assert(self.entries@[i].0@ != self.entries@[j].0@);
            } else {
                assert(self.entries@[j].0@ != self.entries@[i].0@);
            }
        }
    }

    pub fn new() -> (table: Self)
        ensures
            table.well_formed(),
            table@ == Map::<Seq<char>, V>::empty(),
            table.keys().len() == 0,
    {
        let table = KeyTable { entries: Vec::new() };
        assert(table@ =~= Map::<Seq<char>, V>::empty());
        table
    }

    pub fn len(&self) -> (len: usize)
        ensures
            len == self.keys().len(),
    {
        self.entries.len()
    }

    /// The entry at a place.
    pub fn at(&self, i: usize) -> (entry: (&String, &V))
        requires
            self.well_formed(),
            i < self.keys().len(),
        ensures
            entry.0@ == self.keys()[i as int],
            self@.contains_key(entry.0@),
            self@[entry.0@] == *entry.1,
    {
        proof {
            lemma_by_key(self.entries@, i as int);
        }
        (&self.entries[i].0, &self.entries[i].1)
    }

    fn place(&self, key: &str) -> (at: Option<usize>)
        requires
            self.well_formed(),
        ensures
            match at {
                Some(i) => i < self.entries@.len() && self.entries@[i as int].0@ == key@,
                None => !has_key(self.entries@, key@),
            },
    {
        let mut i: usize = 0;
        while i < self.entries.len()
            invariant
                i <= self.entries.len(),
                forall|k: int| 0 <= k < i ==> (#[trigger] self.entries@[k]).0@ != key@,
            decreases self.entries.len() - i,
        {
            if text::same_text(self.entries[i].0.as_str(), key) {
                return Some(i);
            }
            i += 1;
        }
        None
    }

    pub fn get(&self, key: &str) -> (found: Option<&V>)
        requires
            self.well_formed(),
        ensures
            match found {
                Some(value) => self@.contains_key(key@) && self@[key@] == *value,
                None => !self@.contains_key(key@),
            },
    {
        match self.place(key) {
            Some(i) => {
                proof {
                    lemma_by_key(self.entries@, i as int);
                }
                Some(&self.entries[i].1)
            },
            None => None,
        }
    }

    /// Adds a value under a new name; a name that is there keeps its value.
    pub fn insert_new(&mut self, key: String, value: V)
        requires
            old(self).well_formed(),
        ensures
            final(self).well_formed(),
            final(self)@ == if old(self)@.contains_key(key@) {
                old(self)@
            } else {
                old(self)@.insert(key@, value)
            },
    {
        match self.place(key.as_str()) {
            Some(i) => {
                proof {
                    lemma_by_key(self.entries@, i as int);
                }
            },
            None => {
                proof {
                    lemma_pushed(self.entries@, (key, value));
                }
                self.entries.push((key, value));
            },
        }
    }

    /// Removes a name.
    pub fn remove(&mut self, key: &str)
        requires
            old(self).well_formed(),
        ensures
            final(self).well_formed(),
            final(self)@ == old(self)@.remove(key@),
            final(self).keys().len() == if old(self)@.contains_key(key@) {
                old(self).keys().len() - 1
            } else {
                old(self).keys().len() as int
            },
    {
        match self.place(key) {
            Some(i) => {
                proof {
                    lemma_by_key(self.entries@, i as int);
                    lemma_removed(self.entries@, i as int);
                }
                let removed = self.entries.remove(i);
            },
            None => {
                assert(self@ =~= old(self)@.remove(key@));
            },
        }
    }

    /// Adds a value under a name, in place of the one that was there.
    pub fn set(&mut self, key: String, value: V)
        requires
            old(self).well_formed(),
        ensures
            final(self).well_formed(),
            final(self)@ == old(self)@.insert(key@, value),
            final(self).keys().len() == if old(self)@.contains_key(key@) {
                old(self).keys().len()
            } else {
                old(self).keys().len() + 1
            },
    {
        self.remove(key.as_str());
        proof {
            assert(!self@.contains_key(key@));
            assert(!by_key(self.entries@).contains_key(key@));
            lemma_pushed(self.entries@, (key, value));
        }
        self.entries.push((key, value));
        assert(self@ =~= old(self)@.insert(key@, value));
    }

    /// Adds the entries of another table under new names; a name that is there keeps its
    /// value.
    pub fn add_new(&mut self, other: KeyTable<V>)
        requires
            old(self).well_formed(),
            other.well_formed(),
        ensures
            final(self).well_formed(),
            final(self)@ == other@.union_prefer_right(old(self)@),
    {
        let ghost goal = other@.union_prefer_right(self@);
        let mut rest = other;
        while rest.entries.len() > 0
            invariant
                self.well_formed(),
                rest.well_formed(),
                rest@.union_prefer_right(self@) == goal,
            decreases rest.entries.len(),
        {
            let ghost more = rest.entries@;
            let ghost before = self@;
            match rest.entries.pop() {
                None => {},
                Some((key, value)) => {
                    proof {
                        lemma_by_key(more, more.len() - 1);
                        lemma_removed(more, more.len() - 1);
                        assert(more.remove(more.len() - 1) =~= rest.entries@);
                    }
                    self.insert_new(key, value);
                    assert(rest@.union_prefer_right(self@) =~= goal);
                },
            }
        }
        proof {
            assert(rest.entries@ =~= Seq::<(String, V)>::empty());
            assert(rest@.union_prefer_right(self@) =~= self@);
        }
    }

    /// Keeps the entries whose names are listed.
    pub fn keep_listed(&mut self, names: &Vec<String>)
        requires
            old(self).well_formed(),
        ensures
            final(self).well_formed(),
            final(self)@ == old(self)@.restrict(listed(names@)),
    {
        let ghost goal = self@.restrict(listed(names@));
        let mut kept: KeyTable<V> = KeyTable::new();
        assert(self@.restrict(listed(names@)).union_prefer_right(kept@) =~= goal);
        while self.entries.len() > 0
            invariant
                self.well_formed(),
                kept.well_formed(),
                self@.restrict(listed(names@)).union_prefer_right(kept@) == goal,
                forall|key: Seq<char>| #[trigger]
                    kept@.contains_key(key) ==> !self@.contains_key(key),
            decreases self.entries.len(),
        {
            let ghost more = self.entries@;
            let ghost before = self@;
            match self.entries.pop() {
                None => {},
                Some((key, value)) => {
                    proof {
                        lemma_by_key(more, more.len() - 1);
                        lemma_removed(more, more.len() - 1);
                        assert(more.remove(more.len() - 1) =~= self.entries@);
                    }
                    if is_listed(names, key.as_str()) {
                        kept.insert_new(key, value);
                    }
                    assert(self@.restrict(listed(names@)).union_prefer_right(kept@) =~= goal);
                },
            }
        }
        proof {
            assert(self.entries@ =~= Seq::<(String, V)>::empty());
            assert(self@.restrict(listed(names@)).union_prefer_right(kept@) =~= kept@);
        }
        self.entries = kept.entries;
    }
}

/// The names in a list.
pub open spec fn listed(names: Seq<String>) -> Set<Seq<char>> {
    Set::new(|name: Seq<char>| exists|i: int| 0 <= i < names.len() && (#[trigger] names[i])@ == name)
}

fn is_listed(names: &Vec<String>, name: &str) -> (yes: bool)
    ensures
        yes == listed(names@).contains(name@),
{
    let mut i: usize = 0;
    while i < names.len()
        invariant
            i <= names.len(),
            forall|k: int| 0 <= k < i ==> (#[trigger] names@[k])@ != name@,
        decreases names.len() - i,
    {
        if text::same_text(names[i].as_str(), name) {
            assert(names@[i as int]@ == name@);
            return true;
        }
        i += 1;
    }
    false
}

} // verus!
