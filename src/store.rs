//! A store: one log and the index derived from it.
use vstd::prelude::*;

use std::collections::BTreeMap;

use crate::codec::{decode, encode, push_all, Record, RecordModel};
use crate::log::{
    closed, copy_range, find_line_end, holds_live, index_of, index_sound, is_closed,
    lemma_index_append, lemma_index_sound, lemma_line_end, lemma_live_append, line_at, live_records, record_line,
};
use crate::text::{chars_of, string_of};

verus! {

/// What can go wrong in an operation on a store or on the set of stores.
#[derive(PartialEq, Eq, Structural, Clone, Copy, Debug)]
pub enum StoreError {
    DuplicateKey,
    KeyNotFound,
    StoreNotFound,
    StoreAlreadyExists,
}

/// A named collection of records: its log, and the index from each key to
/// the offset of its live record in the log.
pub struct Store {
    name: String,
    fields: Vec<String>,
    log: Vec<char>,
    index: BTreeMap<i32, usize>,
}

/// The index as a map from key to offset.
pub open spec fn offsets_of(m: Map<i32, usize>) -> Map<i32, int> {
    Map::new(|k: i32| m.contains_key(k), |k: i32| m[k] as int)
}

impl View for Store {
    type V = Map<i32, Seq<char>>;

    /// The live records of the store: key to data.
    closed spec fn view(&self) -> Map<i32, Seq<char>> {
        live_records(self.log@)
    }
}

impl Store {
    /// The content of the store's log.
    pub closed spec fn log_view(&self) -> Seq<char> {
        self.log@
    }

    pub closed spec fn name_view(&self) -> Seq<char> {
        self.name@
    }

    pub closed spec fn fields_view(&self) -> Seq<String> {
        self.fields@
    }

    /// The log ends at a line boundary and the index is the one that replay of
    /// the log yields.
    pub closed spec fn wf(&self) -> bool {
        &&& is_closed(self.log@)
        &&& offsets_of(self.index@) == index_of(self.log@)
    }

    /// The index: each key with the offset of its live record in the log.
    pub closed spec fn offsets(&self) -> Map<i32, int> {
        offsets_of(self.index@)
    }

    /// Every key of the index has a live record, and its offset is the start
    /// of a line of the log that decodes to a live record of that key.
    pub proof fn lemma_index_fidelity(&self)
        requires
            self.wf(),
        ensures
            forall|k: i32| #[trigger] self.offsets().contains_key(k) <==> self@.contains_key(k),
            forall|k: i32| #[trigger]
                self.offsets().contains_key(k) ==> holds_live(self.log_view(), self.offsets()[k], k),
    {
        lemma_index_sound(self.log@);
    }

    /// Reopening a store over its own log, which rebuilds the index by replay,
    /// gives back the same log, the same index and the same live records.
    pub proof fn lemma_reopen(&self)
        requires
            self.wf(),
        ensures
            closed(self.log_view()) == self.log_view(),
            index_of(closed(self.log_view())) == self.offsets(),
            live_records(closed(self.log_view())) == self@,
    {
    }

    /// Opens a store over the current content of its log, rebuilding the index
    /// by replay. A trailing line without its line feed is terminated first.
    pub fn open(name: String, fields: Vec<String>, content: &str) -> (s: Store)
        ensures
            s.wf(),
            s.log_view() == closed(content@),
            s@ == live_records(closed(content@)),
            s.name_view() == name@,
            s.fields_view() == fields@,
    {
        let mut log = chars_of(content);
        if log.len() > 0 && log[log.len() - 1] != '\n' {
            log.push('\n');
        }
        proof {
            assert(log@ == closed(content@));
        }
        let index = Self::rebuild(&log);
        Store { name, fields, log, index }
    }

    /// Replays a log from its start: each decoded line sets its key to its
    /// offset, or removes its key when it is a tombstone; a line that does not
    /// decode is skipped.
    pub fn rebuild(log: &Vec<char>) -> (index: BTreeMap<i32, usize>)
        ensures
            offsets_of(index@) == index_of(log@),
    {
        let mut index: BTreeMap<i32, usize> = BTreeMap::new();
        let mut pos: usize = 0;
        proof {
            assert(offsets_of(index@) =~= Map::<i32, int>::empty());
        }
        while pos < log.len()
            invariant
                pos <= log.len(),
                index_of(log@) == crate::log::replay_from(log@, pos as int, offsets_of(index@)),
            decreases log.len() - pos,
        {
            let e = find_line_end(log, pos);
            proof {
                lemma_line_end(log@, pos as int);
            }
            let line = copy_range(log, pos, e);
            let ghost before = offsets_of(index@);
            match decode(&line) {
                Ok(rec) => {
                    if rec.tombstone {
                        index.remove(&rec.key);
                        assert(offsets_of(index@) =~= before.remove(rec.key));
                    } else {
                        index.insert(rec.key, pos);
                        assert(offsets_of(index@) =~= before.insert(rec.key, pos as int));
                    }
                },
                Err(_) => {},
            }
            if e == log.len() {
                return index;
            }
            pos = e + 1;
        }
        index
    }

    /// The live record of `key`, if there is one.
    pub fn find(&self, key: i32) -> (r: Option<Record>)
        requires
            self.wf(),
        ensures
            match r {
                None => !self@.contains_key(key),
                Some(rec) => self@.contains_key(key) && rec@ == (RecordModel {
                    key,
                    data: self@[key],
                    tombstone: false,
                }),
            },
    {
        match self.index.get(&key) {
            None => {
                assert(!offsets_of(self.index@).contains_key(key));
                None
            },
            Some(o) => {
                let o = *o;
                proof {
                    lemma_index_sound(self.log@);
                    assert(offsets_of(self.index@).contains_key(key));
                    assert(holds_live(self.log@, o as int, key));
                    lemma_line_end(self.log@, o as int);
                }
                let e = find_line_end(&self.log, o);
                let line = copy_range(&self.log, o, e);
                assert(line@ == line_at(self.log@, o as int));
                match decode(&line) {
                    Ok(rec) => Some(rec),
                    Err(_) => None,
                }
            },
        }
    }

    /// Appends the line of `rec` to the log and points the index at it.
    fn append(&mut self, rec: Record)
        requires
            old(self).wf(),
        ensures
            final(self).wf(),
            final(self).log_view() == old(self).log_view() + record_line(rec@),
            final(self)@ == (if rec.tombstone {
                old(self)@.remove(rec.key)
            } else {
                old(self)@.insert(rec.key, rec.data@)
            }),
            final(self).name_view() == old(self).name_view(),
            final(self).fields_view() == old(self).fields_view(),
    {
        let line = encode(&rec);
        let n = self.log.len();
        let ghost old_log = self.log@;
        let ghost old_offsets = offsets_of(self.index@);
        push_all(&mut self.log, &line);
        self.log.push('\n');
        if rec.tombstone {
            self.index.remove(&rec.key);
            assert(offsets_of(self.index@) =~= old_offsets.remove(rec.key));
        } else {
            self.index.insert(rec.key, n);
            assert(offsets_of(self.index@) =~= old_offsets.insert(rec.key, n as int));
        }
        proof {
            assert(self.log@ =~= old_log + record_line(rec@));
            lemma_index_append(old_log, rec@);
            lemma_live_append(old_log, rec@);
        }
    }

    /// Adds a record; fails with `DuplicateKey`, changing nothing, when `key`
    /// already has a live record.
    pub fn add(&mut self, key: i32, data: String) -> (r: Result<(), StoreError>)
        requires
            old(self).wf(),
        ensures
            final(self).wf(),
            final(self).name_view() == old(self).name_view(),
            final(self).fields_view() == old(self).fields_view(),
            if old(self)@.contains_key(key) {
                &&& r == Err::<(), StoreError>(StoreError::DuplicateKey)
                &&& final(self).log_view() == old(self).log_view()
                &&& final(self)@ == old(self)@
            } else {
                &&& r == Ok::<(), StoreError>(())
                &&& final(self).log_view() == old(self).log_view() + record_line(
                    RecordModel { key, data: data@, tombstone: false },
                )
                &&& final(self)@ == old(self)@.insert(key, data@)
            },
    {
        if self.index.contains_key(&key) {
            assert(offsets_of(self.index@).contains_key(key));
            return Err(StoreError::DuplicateKey);
        }
        assert(!offsets_of(self.index@).contains_key(key));
        self.append(Record { key, data, tombstone: false });
        Ok(())
    }

    /// Replaces the data of a live record by appending its new version; fails
    /// with `KeyNotFound`, changing nothing, when `key` has no live record.
    pub fn update(&mut self, key: i32, data: String) -> (r: Result<(), StoreError>)
        requires
            old(self).wf(),
        ensures
            final(self).wf(),
            final(self).name_view() == old(self).name_view(),
            final(self).fields_view() == old(self).fields_view(),
            if old(self)@.contains_key(key) {
                &&& r == Ok::<(), StoreError>(())
                &&& final(self).log_view() == old(self).log_view() + record_line(
                    RecordModel { key, data: data@, tombstone: false },
                )
                &&& final(self)@ == old(self)@.insert(key, data@)
            } else {
                &&& r == Err::<(), StoreError>(StoreError::KeyNotFound)
                &&& final(self).log_view() == old(self).log_view()
                &&& final(self)@ == old(self)@
            },
    {
        if !self.index.contains_key(&key) {
            assert(!offsets_of(self.index@).contains_key(key));
            return Err(StoreError::KeyNotFound);
        }
        assert(offsets_of(self.index@).contains_key(key));
        self.append(Record { key, data, tombstone: false });
        Ok(())
    }

    /// Deletes the live record of `key` by appending a tombstone, and returns
    /// it; returns `None`, changing nothing, when there is none.
    pub fn delete(&mut self, key: i32) -> (r: Option<Record>)
        requires
            old(self).wf(),
        ensures
            final(self).wf(),
            final(self).name_view() == old(self).name_view(),
            final(self).fields_view() == old(self).fields_view(),
            match r {
                None => {
                    &&& !old(self)@.contains_key(key)
                    &&& final(self).log_view() == old(self).log_view()
                    &&& final(self)@ == old(self)@
                },
                Some(rec) => {
                    &&& old(self)@.contains_key(key)
                    &&& rec@ == (RecordModel { key, data: old(self)@[key], tombstone: false })
                    &&& final(self).log_view() == old(self).log_view() + record_line(
                        RecordModel { key, data: Seq::empty(), tombstone: true },
                    )
                    &&& final(self)@ == old(self)@.remove(key)
                },
            },
    {
        let found = self.find(key);
        match found {
            None => None,
            Some(rec) => {
                let tomb = Record { key, data: String::new(), tombstone: true };
                self.append(tomb);
                Some(rec)
            },
        }
    }

    /// Every live record of the store, each key once, in the order of the
    /// log.
    pub fn get_all(&self) -> (r: Vec<Record>)
        requires
            self.wf(),
        ensures
            forall|i: int|
                0 <= i < r.len() ==> {
                    &&& self@.contains_key(#[trigger] r[i].key)
                    &&& r[i]@ == (RecordModel { key: r[i].key, data: self@[r[i].key], tombstone: false })
                },
            forall|k: i32| #[trigger]
                self@.contains_key(k) ==> exists|i: int| 0 <= i < r.len() && r[i].key == k,
            forall|i: int, j: int| 0 <= i < j < r.len() ==> r[i].key != r[j].key,
    {
        let ghost offs = offsets_of(self.index@);
        let ghost log = self.log@;
        proof {
            lemma_index_sound(log);
        }
        let mut out: Vec<Record> = Vec::new();
        let mut pos: usize = 0;
        while pos < self.log.len()
            invariant
                self.wf(),
                offs == offsets_of(self.index@),
                log == self.log@,
                index_sound(log, offs),
                offs == index_of(log),
                pos <= log.len(),
                pos == 0 || log[pos - 1] == '\n',
                forall|i: int|
                    0 <= i < out.len() ==> {
                        &&& offs.contains_key(#[trigger] out[i].key)
                        &&& offs[out[i].key] < pos
                        &&& out[i]@ == (RecordModel {
                            key: out[i].key,
                            data: self@[out[i].key],
                            tombstone: false,
                        })
                    },
                forall|k: i32| #[trigger]
                    offs.contains_key(k) && offs[k] < pos ==> exists|i: int|
                        0 <= i < out.len() && out[i].key == k,
                forall|i: int, j: int| 0 <= i < j < out.len() ==> out[i].key != out[j].key,
            decreases log.len() - pos,
        {
            let e = find_line_end(&self.log, pos);
            proof {
                lemma_line_end(log, pos as int);
            }
            let line = copy_range(&self.log, pos, e);
            assert(line@ == line_at(log, pos as int));
            let ghost out_before = out@;
            match decode(&line) {
                Ok(rec) => {
                    if !rec.tombstone {
                        let current = match self.index.get(&rec.key) {
                            Some(o) => *o == pos,
                            None => false,
                        };
                        if current {
                            assert(offs.contains_key(rec.key) && offs[rec.key] == pos);
                            let ghost k = rec.key;
                            out.push(rec);
                            proof {
                                assert(out[out.len() - 1].key == k);
                                assert forall|i: int| 0 <= i < out.len() - 1 implies out[i].key
                                    != k by {
                                    assert(out[i] == out_before[i]);
                                }
                            }
                        }
                    }
                },
                Err(_) => {},
            }
            proof {
                assert forall|k: i32| #[trigger]
                    offs.contains_key(k) && offs[k] < e + 1 implies exists|i: int|
                        0 <= i < out.len() && out[i].key == k by {
                    if offs[k] < pos {
                        let i = choose|i: int| 0 <= i < out_before.len() && out_before[i].key == k;
                        assert(out[i] == out_before[i]);
                    } else {
                        let o = offs[k];
                        assert(holds_live(log, o, k));
                        if o > pos {
                            assert(log[o - 1] == '\n');
                        }
                        assert(o == pos);
                        assert(out[out.len() - 1].key == k);
                    }
                }
            }
            if e == self.log.len() {
                proof {
                    assert forall|k: i32| #[trigger] self@.contains_key(k) implies exists|i: int|
                        0 <= i < out.len() && out[i].key == k by {
                        assert(offs.contains_key(k));
                        assert(holds_live(log, offs[k], k));
                    }
                }
                return out;
            }
            pos = e + 1;
        }
        proof {
            assert forall|k: i32| #[trigger] self@.contains_key(k) implies exists|i: int|
                0 <= i < out.len() && out[i].key == k by {
                assert(offs.contains_key(k));
                assert(holds_live(log, offs[k], k));
            }
        }
        out
    }

    /// The store's name.
    pub fn name(&self) -> (r: &String)
        ensures
            r@ == self.name_view(),
    {
        &self.name
    }

    /// The field names declared for the store; they are not enforced.
    pub fn fields(&self) -> (r: &Vec<String>)
        ensures
            r@ == self.fields_view(),
    {
        &self.fields
    }

    /// The length of the log.
    pub fn log_len(&self) -> (n: usize)
        ensures
            n == self.log_view().len(),
    {
        self.log.len()
    }

    /// The log from offset `from` to its end, as text.
    pub fn log_text(&self, from: usize) -> (r: String)
        requires
            from <= self.log_view().len(),
        ensures
            r@ == self.log_view().subrange(from as int, self.log_view().len() as int),
    {
        string_of(&self.log, from, self.log.len())
    }
}

} // verus!
