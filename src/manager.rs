//! The set of stores, each under a unique name.
use vstd::prelude::*;

use crate::codec::{Record, RecordModel};
use crate::log::{closed, live_records};
use crate::store::{Store, StoreError};

verus! {

/// A store's name and the field names declared for it.
pub struct StoreMeta {
    pub name: String,
    pub fields: Vec<String>,
}

/// The texts of a sequence of strings.
pub open spec fn texts(v: Seq<String>) -> Seq<Seq<char>> {
    v.map_values(|s: String| s@)
}

/// Owns the stores; no two of them share a name.
pub struct Manager {
    stores: Vec<Store>,
}

impl Manager {
    pub closed spec fn stores_view(&self) -> Seq<Store> {
        self.stores@
    }

    /// Each store is well formed and no name is used twice.
    pub open spec fn wf(&self) -> bool {
        &&& forall|i: int| 0 <= i < self.stores_view().len() ==> (#[trigger] self.stores_view()[i]).wf()
        &&& forall|i: int, j: int|
            0 <= i < j < self.stores_view().len() ==> self.stores_view()[i].name_view()
                != self.stores_view()[j].name_view()
    }

    /// Whether a store of this name is managed.
    pub open spec fn has(&self, name: Seq<char>) -> bool {
        exists|i: int|
            0 <= i < self.stores_view().len() && #[trigger] self.stores_view()[i].name_view() == name
    }

    /// The store of this name.
    pub open spec fn store(&self, name: Seq<char>) -> Store {
        self.stores_view()[choose|i: int|
            0 <= i < self.stores_view().len() && #[trigger] self.stores_view()[i].name_view() == name]
    }

    /// Only the store named `name` may differ between `self` and `other`.
    pub open spec fn others_unchanged(&self, other: &Manager, name: Seq<char>) -> bool {
        forall|n: Seq<char>|
            n != name ==> (#[trigger] other.has(n) == self.has(n)) && (self.has(n) ==> other.store(n)
                == self.store(n))
    }

    /// The store at position `i` is the one managed under its own name.
    pub proof fn lemma_store_at(&self, i: int)
        requires
            self.wf(),
            0 <= i < self.stores_view().len(),
        ensures
            self.has(self.stores_view()[i].name_view()),
            self.store(self.stores_view()[i].name_view()) == self.stores_view()[i],
            self.store(self.stores_view()[i].name_view()).name_view() == self.stores_view()[i].name_view(),
    {
        let name = self.stores@[i].name_view();
        assert(self.stores@[i].name_view() == name);
        let j = choose|j: int| 0 <= j < self.stores@.len() && #[trigger] self.stores@[j].name_view() == name;
        if j != i {
            assert(self.stores@[j].name_view() == name);
        }
    }

    pub fn new() -> (m: Manager)
        ensures
            m.wf(),
            m.stores_view().len() == 0,
            forall|n: Seq<char>| !m.has(n),
    {
        Manager { stores: Vec::new() }
    }

    fn position(&self, name: &str) -> (r: Option<usize>)
        requires
            self.wf(),
        ensures
            match r {
                Some(i) => {
                    &&& i < self.stores@.len()
                    &&& self.stores@[i as int].name_view() == name@
                    &&& self.has(name@)
                    &&& self.store(name@) == self.stores@[i as int]
                },
                None => !self.has(name@),
            },
    {
        let wanted = name.to_owned();
        let mut i: usize = 0;
        while i < self.stores.len()
            invariant
                self.wf(),
                i <= self.stores@.len(),
                wanted@ == name@,
                forall|j: int| 0 <= j < i ==> self.stores@[j].name_view() != name@,
            decreases self.stores.len() - i,
        {
            if *self.stores[i].name() == wanted {
                proof {
                    self.lemma_store_at(i as int);
                }
                return Some(i);
            }
            i = i + 1;
        }
        None
    }

    /// Creates a store named `name` over the current content of its log; fails
    /// with `StoreAlreadyExists`, changing nothing, when the name is taken.
    pub fn create(&mut self, name: &str, fields: Vec<String>, content: &str) -> (r: Result<(), StoreError>)
        requires
            old(self).wf(),
        ensures
            final(self).wf(),
            final(self).others_unchanged(old(self), name@),
            forall|n: Seq<char>| #[trigger] final(self).has(n) == (old(self).has(n) || n == name@),
            if old(self).has(name@) {
                &&& r == Err::<(), StoreError>(StoreError::StoreAlreadyExists)
                &&& final(self).stores_view() == old(self).stores_view()
                &&& final(self).store(name@) == old(self).store(name@)
                &&& final(self).has(name@)
            } else {
                &&& r == Ok::<(), StoreError>(())
                &&& final(self).has(name@)
                &&& final(self).stores_view() == old(self).stores_view().push(final(self).store(name@))
                &&& final(self).store(name@).name_view() == name@
                &&& final(self).store(name@)@ == live_records(closed(content@))
                &&& final(self).store(name@).log_view() == closed(content@)
                &&& final(self).store(name@).fields_view() == fields@
            },
    {
        match self.position(name) {
            Some(_) => Err(StoreError::StoreAlreadyExists),
            None => {
                let s = Store::open(name.to_owned(), fields, content);
                let ghost old_stores = self.stores@;
                self.stores.push(s);
                proof {
                    let n = self.stores@.len() - 1;
                    assert forall|i: int| 0 <= i < old_stores.len() implies self.stores@[i]
                        == old_stores[i] by {}
                    assert(self.stores_view() == self.stores@);
                    assert(old(self).stores_view() == old_stores);
                    assert(self.wf());
                    self.lemma_store_at(n);
                    assert forall|nm: Seq<char>| nm != name@ implies (#[trigger] old(self).has(nm)
                        == self.has(nm)) && (self.has(nm) ==> old(self).store(nm) == self.store(nm)) by {
                        if self.has(nm) {
                            let i = choose|i: int| 0 <= i < self.stores@.len() && #[trigger] self.stores@[i].name_view() == nm;
                            assert(i < n);
                            self.lemma_store_at(i);
                            old(self).lemma_store_at(i);
                        }
                        if old(self).has(nm) {
                            let i = choose|i: int| 0 <= i < old_stores.len() && #[trigger] old_stores[i].name_view() == nm;
                            assert(self.stores@[i].name_view() == nm);
                        }
                    }
                }
                Ok(())
            },
        }
    }

    /// The store named `name`, if there is one.
    pub fn get(&self, name: &str) -> (r: Option<&Store>)
        requires
            self.wf(),
        ensures
            match r {
                Some(s) => self.has(name@) && *s == self.store(name@) && s.wf() && s.name_view() == name@,
                None => !self.has(name@),
            },
    {
        match self.position(name) {
            Some(i) => Some(&self.stores[i]),
            None => None,
        }
    }

    /// The name and declared fields of each store, in the order of creation.
    pub fn list(&self) -> (r: Vec<StoreMeta>)
        requires
            self.wf(),
        ensures
            r@.len() == self.stores_view().len(),
            forall|i: int|
                0 <= i < r@.len() ==> {
                    &&& (#[trigger] r@[i]).name@ == self.stores_view()[i].name_view()
                    &&& texts(r@[i].fields@) == texts(self.stores_view()[i].fields_view())
                    &&& self.has(r@[i].name@)
                    &&& texts(r@[i].fields@) == texts(self.store(r@[i].name@).fields_view())
                },
            forall|i: int, j: int| 0 <= i < j < r@.len() ==> r@[i].name@ != r@[j].name@,
            forall|n: Seq<char>| #[trigger] self.has(n) ==> exists|i: int| 0 <= i < r@.len() && r@[i].name@ == n,
    {
        let mut r: Vec<StoreMeta> = Vec::new();
        let mut i: usize = 0;
        while i < self.stores.len()
            invariant
                i <= self.stores@.len(),
                r@.len() == i,
                forall|j: int|
                    0 <= j < i ==> {
                        &&& (#[trigger] r@[j]).name@ == self.stores@[j].name_view()
                        &&& texts(r@[j].fields@) == texts(self.stores@[j].fields_view())
                    },
            decreases self.stores.len() - i,
        {
            let s = &self.stores[i];
            let fields = s.fields();
            let mut copy: Vec<String> = Vec::new();
            let mut j: usize = 0;
            while j < fields.len()
                invariant
                    j <= fields@.len(),
                    copy@.len() == j,
                    texts(copy@) == texts(fields@).take(j as int),
                decreases fields.len() - j,
            {
                let c = fields[j].clone();
                let ghost before = copy@;
                copy.push(c);
                j = j + 1;
                assert forall|t: int| 0 <= t < j implies #[trigger] texts(copy@)[t] == texts(fields@)[t] by {
                    if t < j - 1 {
                        assert(copy@[t] == before[t]);
                        assert(texts(before)[t] == texts(fields@).take(j - 1)[t]);
                    }
                }
                assert(texts(copy@) =~= texts(fields@).take(j as int));
            }
            assert(texts(fields@).take(j as int) =~= texts(fields@));
            r.push(StoreMeta { name: s.name().clone(), fields: copy });
            i = i + 1;
        }
        proof {
            assert forall|t: int| 0 <= t < r@.len() implies self.has((#[trigger] r@[t]).name@) && texts(
                r@[t].fields@,
            ) == texts(self.store(r@[t].name@).fields_view()) by {
                self.lemma_store_at(t);
            }
            assert forall|n: Seq<char>| #[trigger] self.has(n) implies exists|t: int|
                0 <= t < r@.len() && r@[t].name@ == n by {
                let t = choose|t: int|
                    0 <= t < self.stores_view().len() && #[trigger] self.stores_view()[t].name_view() == n;
                assert(r@[t].name@ == n);
            }
        }
        r
    }

    /// Replacing the store at `i` by one of the same name, well formed, keeps
    /// the manager well formed and leaves the other stores as they were.
    proof fn lemma_replaced(old_m: &Manager, new_m: &Manager, i: int)
        requires
            old_m.wf(),
            0 <= i < old_m.stores@.len(),
            new_m.stores@ == old_m.stores@.update(i, new_m.stores@[i]),
            new_m.stores@[i].wf(),
            new_m.stores@[i].name_view() == old_m.stores@[i].name_view(),
        ensures
            new_m.wf(),
            new_m.others_unchanged(old_m, old_m.stores@[i].name_view()),
            new_m.has(old_m.stores@[i].name_view()),
            new_m.store(old_m.stores@[i].name_view()) == new_m.stores@[i],
            old_m.store(old_m.stores@[i].name_view()) == old_m.stores@[i],
    {
        let name = old_m.stores@[i].name_view();
        assert(new_m.stores_view() == new_m.stores@);
        assert(old_m.stores_view() == old_m.stores@);
        assert(new_m.wf()) by {
            assert forall|a: int, b: int| 0 <= a < b < new_m.stores@.len() implies new_m.stores@[a].name_view()
                != new_m.stores@[b].name_view() by {
                assert(new_m.stores@[a].name_view() == old_m.stores@[a].name_view());
                assert(new_m.stores@[b].name_view() == old_m.stores@[b].name_view());
            }
        }
        new_m.lemma_store_at(i);
        old_m.lemma_store_at(i);
        assert forall|n: Seq<char>| n != name implies (#[trigger] old_m.has(n) == new_m.has(n)) && (
        new_m.has(n) ==> old_m.store(n) == new_m.store(n)) by {
            if new_m.has(n) {
                let j = choose|j: int| 0 <= j < new_m.stores@.len() && #[trigger] new_m.stores@[j].name_view() == n;
                assert(j != i);
                new_m.lemma_store_at(j);
                old_m.lemma_store_at(j);
            }
            if old_m.has(n) {
                let j = choose|j: int| 0 <= j < old_m.stores@.len() && #[trigger] old_m.stores@[j].name_view() == n;
                assert(j != i);
                assert(new_m.stores@[j].name_view() == n);
            }
        }
    }

    /// Adds a record to the store named `name`; fails with `StoreNotFound`
    /// when there is none, and as `Store::add` does otherwise.
    pub fn add(&mut self, name: &str, key: i32, data: String) -> (r: Result<(), StoreError>)
        requires
            old(self).wf(),
        ensures
            final(self).wf(),
            final(self).others_unchanged(old(self), name@),
            !old(self).has(name@) ==> r == Err::<(), StoreError>(StoreError::StoreNotFound)
                && final(self).stores_view() == old(self).stores_view() && !final(self).has(name@),
            old(self).has(name@) ==> final(self).has(name@) && if old(self).store(name@)@.contains_key(key) {
                &&& r == Err::<(), StoreError>(StoreError::DuplicateKey)
                &&& final(self).store(name@)@ == old(self).store(name@)@
            } else {
                &&& r == Ok::<(), StoreError>(())
                &&& final(self).store(name@)@ == old(self).store(name@)@.insert(key, data@)
            },
    {
        match self.position(name) {
            None => Err(StoreError::StoreNotFound),
            Some(i) => {
                let r = self.stores[i].add(key, data);
                proof {
                    Self::lemma_replaced(old(self), self, i as int);
                }
                r
            },
        }
    }

    /// Replaces the data of a record in the store named `name`; fails with
    /// `StoreNotFound` when there is none, and as `Store::update` does
    /// otherwise.
    pub fn update(&mut self, name: &str, key: i32, data: String) -> (r: Result<(), StoreError>)
        requires
            old(self).wf(),
        ensures
            final(self).wf(),
            final(self).others_unchanged(old(self), name@),
            !old(self).has(name@) ==> r == Err::<(), StoreError>(StoreError::StoreNotFound)
                && final(self).stores_view() == old(self).stores_view() && !final(self).has(name@),
            old(self).has(name@) ==> final(self).has(name@) && if old(self).store(name@)@.contains_key(key) {
                &&& r == Ok::<(), StoreError>(())
                &&& final(self).store(name@)@ == old(self).store(name@)@.insert(key, data@)
            } else {
                &&& r == Err::<(), StoreError>(StoreError::KeyNotFound)
                &&& final(self).store(name@)@ == old(self).store(name@)@
            },
    {
        match self.position(name) {
            None => Err(StoreError::StoreNotFound),
            Some(i) => {
                let r = self.stores[i].update(key, data);
                proof {
                    Self::lemma_replaced(old(self), self, i as int);
                }
                r
            },
        }
    }

    /// Deletes a record of the store named `name` and returns it; fails with
    /// `StoreNotFound` when there is no such store, and gives `Ok(None)` when
    /// the key has no live record.
    pub fn delete(&mut self, name: &str, key: i32) -> (r: Result<Option<Record>, StoreError>)
        requires
            old(self).wf(),
        ensures
            final(self).wf(),
            final(self).others_unchanged(old(self), name@),
            !old(self).has(name@) ==> r == Err::<Option<Record>, StoreError>(StoreError::StoreNotFound)
                && final(self).stores_view() == old(self).stores_view() && !final(self).has(name@),
            old(self).has(name@) ==> final(self).has(name@) && match r {
                Ok(Some(rec)) => {
                    &&& old(self).store(name@)@.contains_key(key)
                    &&& rec@ == (RecordModel { key, data: old(self).store(name@)@[key], tombstone: false })
                    &&& final(self).store(name@)@ == old(self).store(name@)@.remove(key)
                },
                Ok(None) => {
                    &&& !old(self).store(name@)@.contains_key(key)
                    &&& final(self).store(name@)@ == old(self).store(name@)@
                },
                Err(_) => false,
            },
    {
        match self.position(name) {
            None => Err(StoreError::StoreNotFound),
            Some(i) => {
                let r = self.stores[i].delete(key);
                proof {
                    Self::lemma_replaced(old(self), self, i as int);
                }
                Ok(r)
            },
        }
    }

    /// Stops managing the store named `name` and hands it back; returns
    /// `None`, changing nothing, when there is no such store.
    pub fn remove(&mut self, name: &str) -> (r: Option<Store>)
        requires
            old(self).wf(),
        ensures
            final(self).wf(),
            final(self).others_unchanged(old(self), name@),
            !final(self).has(name@),
            match r {
                Some(s) => old(self).has(name@) && s == old(self).store(name@),
                None => !old(self).has(name@) && final(self).stores_view() == old(self).stores_view(),
            },
    {
        match self.position(name) {
            None => None,
            Some(i) => {
                let ghost old_stores = self.stores@;
                let s = self.stores.remove(i);
                proof {
                    let new_stores = self.stores@;
                    assert(self.stores_view() == new_stores);
                    assert(old(self).stores_view() == old_stores);
                    assert forall|t: int| 0 <= t < new_stores.len() implies #[trigger] new_stores[t] == if t
                        < i {
                        old_stores[t]
                    } else {
                        old_stores[t + 1]
                    } by {}
                    assert(self.wf()) by {
                        assert forall|a: int, b: int| 0 <= a < b < new_stores.len() implies new_stores[a].name_view()
                            != new_stores[b].name_view() by {
                            let oa = if a < i { a } else { a + 1 };
                            let ob = if b < i { b } else { b + 1 };
                            assert(new_stores[a] == old_stores[oa]);
                            assert(new_stores[b] == old_stores[ob]);
                        }
                    }
                    assert(!self.has(name@)) by {
                        if self.has(name@) {
                            let t = choose|t: int|
                                0 <= t < new_stores.len() && #[trigger] new_stores[t].name_view() == name@;
                            let ot = if t < i { t } else { t + 1 };
                            assert(new_stores[t] == old_stores[ot]);
                            assert(old_stores[i as int].name_view() == name@);
                        }
                    }
                    assert forall|n: Seq<char>| n != name@ implies (#[trigger] old(self).has(n) == self.has(n))
                        && (self.has(n) ==> old(self).store(n) == self.store(n)) by {
                        if self.has(n) {
                            let t = choose|t: int|
                                0 <= t < new_stores.len() && #[trigger] new_stores[t].name_view() == n;
                            let ot = if t < i { t } else { t + 1 };
                            assert(new_stores[t] == old_stores[ot]);
                            self.lemma_store_at(t);
                            old(self).lemma_store_at(ot);
                        }
                        if old(self).has(n) {
                            let ot = choose|t: int|
                                0 <= t < old_stores.len() && #[trigger] old_stores[t].name_view() == n;
                            assert(ot != i);
                            let t = if ot < i { ot } else { ot - 1 };
                            assert(new_stores[t] == old_stores[ot]);
                        }
                    }
                }
                Some(s)
            },
        }
    }
}

} // verus!
