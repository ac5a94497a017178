//! The log of a store: encoded records, one per line, in the order they were
//! appended, and the replay that derives the index from it.
use vstd::prelude::*;

use crate::codec::{decode_line, encode_line, lemma_encode_no_newline, lemma_round_trip, RecordModel};

verus! {

/// The position of the line feed that ends the line starting at `i`, or the
/// end of the log when that line is unterminated.
pub open spec fn line_end(log: Seq<char>, i: int) -> int
    decreases log.len() - i,
{
    if 0 <= i < log.len() && log[i] != '\n' {
        line_end(log, i + 1)
    } else {
        i
    }
}

/// The line starting at `o`, without its line feed.
pub open spec fn line_at(log: Seq<char>, o: int) -> Seq<char> {
    log.subrange(o, line_end(log, o))
}

/// A log is closed when it is empty or ends with a line feed, so that what is
/// appended to it starts a new line.
pub open spec fn is_closed(log: Seq<char>) -> bool {
    log.len() == 0 || log.last() == '\n'
}

/// The content of a log file once a trailing partial line is terminated.
pub open spec fn closed(content: Seq<char>) -> Seq<char> {
    if is_closed(content) {
        content
    } else {
        content.push('\n')
    }
}

/// One step of replay: what a decoded line at `pos` does to the index.
pub open spec fn apply(idx: Map<i32, int>, r: Option<RecordModel>, pos: int) -> Map<i32, int> {
    match r {
        None => idx,
        Some(rec) => if rec.tombstone {
            idx.remove(rec.key)
        } else {
            idx.insert(rec.key, pos)
        },
    }
}

/// Replay of the lines from `pos` on, in file order, starting from `idx`.
pub open spec fn replay_from(log: Seq<char>, pos: int, idx: Map<i32, int>) -> Map<i32, int>
    decreases log.len() - pos,
{
    if pos < 0 || pos >= log.len() {
        idx
    } else {
        let e = line_end(log, pos);
        let next = apply(idx, decode_line(log.subrange(pos, e)), pos);
        if e < pos || e >= log.len() {
            next
        } else {
            replay_from(log, e + 1, next)
        }
    }
}

/// The index that a full replay of the log yields.
pub open spec fn index_of(log: Seq<char>) -> Map<i32, int> {
    replay_from(log, 0, Map::empty())
}

pub open spec fn is_line_start(log: Seq<char>, o: int) -> bool {
    0 <= o < log.len() && (o == 0 || log[o - 1] == '\n')
}

/// The line at `o` starts a line and decodes to a live record of key `k`.
pub open spec fn holds_live(log: Seq<char>, o: int, k: i32) -> bool {
    &&& is_line_start(log, o)
    &&& decode_line(line_at(log, o)) is Some
    &&& decode_line(line_at(log, o))->0.key == k
    &&& !decode_line(line_at(log, o))->0.tombstone
}

/// Every offset of the index points at the start of a live record of its key.
pub open spec fn index_sound(log: Seq<char>, idx: Map<i32, int>) -> bool {
    forall|k: i32| #[trigger] idx.contains_key(k) ==> holds_live(log, idx[k], k)
}

/// The data of the live record at `o`.
pub open spec fn data_at(log: Seq<char>, o: int) -> Seq<char> {
    decode_line(line_at(log, o))->0.data
}

/// The live records of a log: each key of its index, with the data of the
/// record that the index points at.
pub open spec fn live_records(log: Seq<char>) -> Map<i32, Seq<char>> {
    Map::new(|k: i32| index_of(log).contains_key(k), |k: i32| data_at(log, index_of(log)[k]))
}

pub proof fn lemma_line_end(log: Seq<char>, i: int)
    requires
        0 <= i <= log.len(),
    ensures
        i <= line_end(log, i) <= log.len(),
        line_end(log, i) < log.len() ==> log[line_end(log, i)] == '\n',
        forall|t: int| i <= t < line_end(log, i) ==> #[trigger] log[t] != '\n',
    decreases log.len() - i,
{
    if i < log.len() && log[i] != '\n' {
        lemma_line_end(log, i + 1);
    }
}

proof fn lemma_line_end_extend(log: Seq<char>, x: Seq<char>, i: int)
    requires
        0 <= i <= log.len(),
        line_end(log, i) < log.len(),
    ensures
        line_end(log + x, i) == line_end(log, i),
    decreases log.len() - i,
{
    if log[i] != '\n' {
        lemma_line_end_extend(log, x, i + 1);
    }
}

/// A line of a closed log reads the same once more is appended.
pub proof fn lemma_line_at_extend(log: Seq<char>, x: Seq<char>, o: int)
    requires
        is_closed(log),
        0 <= o < log.len(),
    ensures
        line_end(log + x, o) == line_end(log, o),
        line_at(log + x, o) == line_at(log, o),
        line_end(log, o) < log.len(),
{
    lemma_line_end(log, o);
    if line_end(log, o) == log.len() {
        assert(forall|t: int| o <= t < line_end(log, o) ==> #[trigger] log[t] != '\n');
        assert(log[log.len() - 1] == '\n');
    }
    lemma_line_end_extend(log, x, o);
    assert(line_at(log + x, o) =~= line_at(log, o));
}

proof fn lemma_replay_sound(log: Seq<char>, pos: int, idx: Map<i32, int>)
    requires
        0 <= pos,
        pos == 0 || (pos <= log.len() && log[pos - 1] == '\n'),
        index_sound(log, idx),
    ensures
        index_sound(log, replay_from(log, pos, idx)),
    decreases log.len() - pos,
{
    if pos < log.len() {
        lemma_line_end(log, pos);
        let e = line_end(log, pos);
        let r = decode_line(log.subrange(pos, e));
        let idx2 = apply(idx, r, pos);
        assert(index_sound(log, idx2)) by {
            assert forall|k: i32| #[trigger] idx2.contains_key(k) implies holds_live(
                log,
                idx2[k],
                k,
            ) by {
                if idx.contains_key(k) && idx2[k] == idx[k] {
                } else {
                    assert(line_at(log, pos) == log.subrange(pos, e));
                }
            }
        }
        if e < log.len() {
            lemma_replay_sound(log, e + 1, idx2);
        }
    }
}

/// The index of any log points every key at the start of one of its live
/// records.
pub proof fn lemma_index_sound(log: Seq<char>)
    ensures
        index_sound(log, index_of(log)),
{
    lemma_replay_sound(log, 0, Map::empty());
}

proof fn lemma_replay_extend(log: Seq<char>, x: Seq<char>, pos: int, idx: Map<i32, int>)
    requires
        is_closed(log),
        0 <= pos <= log.len(),
    ensures
        replay_from(log + x, pos, idx) == replay_from(
            log + x,
            log.len() as int,
            replay_from(log, pos, idx),
        ),
    decreases log.len() - pos,
{
    if pos < log.len() {
        lemma_line_at_extend(log, x, pos);
        lemma_line_end(log, pos);
        let e = line_end(log, pos);
        assert((log + x).subrange(pos, e) =~= log.subrange(pos, e));
        let next = apply(idx, decode_line(log.subrange(pos, e)), pos);
        lemma_replay_extend(log, x, e + 1, next);
        if x.len() == 0 {
            assert(log + x =~= log);
        }
    }
}

/// The text of one record's line, with its line feed.
pub open spec fn record_line(r: RecordModel) -> Seq<char> {
    encode_line(r).push('\n')
}

/// Appending the line of a record to a closed log changes its index as replay
/// of that one line does.
pub proof fn lemma_index_append(log: Seq<char>, r: RecordModel)
    requires
        is_closed(log),
    ensures
        index_of(log + record_line(r)) == apply(index_of(log), Some(r), log.len() as int),
        is_closed(log + record_line(r)),
        line_at(log + record_line(r), log.len() as int) == encode_line(r),
{
    let x = record_line(r);
    let full = log + x;
    let n = log.len() as int;
    let enc = encode_line(r);
    let e = n + enc.len();
    lemma_replay_extend(log, x, 0, Map::empty());
    assert(full.len() == e + 1);
    assert(full[e] == '\n');
    assert forall|t: int| n <= t < e implies #[trigger] full[t] != '\n' by {
        lemma_encode_no_newline(r);
        assert(full[t] == enc[t - n]);
    }
    lemma_line_end_at(full, n, e);
    assert(full.subrange(n, e) =~= enc);
    lemma_round_trip(r);
    let next = apply(index_of(log), decode_line(full.subrange(n, e)), n);
    assert(decode_line(full.subrange(n, e)) == Some(r));
    assert(replay_from(full, e + 1, next) == next);
    assert(replay_from(full, n, index_of(log)) == replay_from(full, e + 1, next));
    assert(replay_from(full, n, index_of(log)) == apply(index_of(log), Some(r), n));
    assert(full.last() == '\n');
}

proof fn lemma_line_end_at(log: Seq<char>, i: int, j: int)
    requires
        0 <= i <= j < log.len(),
        forall|t: int| i <= t < j ==> #[trigger] log[t] != '\n',
        log[j] == '\n',
    ensures
        line_end(log, i) == j,
    decreases j - i,
{
    if i < j {
        lemma_line_end_at(log, i + 1, j);
    }
}

/// The end of the line that starts at `i`.
pub fn find_line_end(log: &Vec<char>, i: usize) -> (e: usize)
    requires
        i <= log.len(),
    ensures
        e == line_end(log@, i as int),
{
    let mut j: usize = i;
    while j < log.len() && log[j] != '\n'
        invariant
            i <= j <= log.len(),
            line_end(log@, i as int) == line_end(log@, j as int),
        decreases log.len() - j,
    {
        j = j + 1;
    }
    j
}

/// A copy of the characters from `start` up to `end`.
pub fn copy_range(log: &Vec<char>, start: usize, end: usize) -> (r: Vec<char>)
    requires
        start <= end <= log.len(),
    ensures
        r@ == log@.subrange(start as int, end as int),
{
    let mut r: Vec<char> = Vec::new();
    let mut i: usize = start;
    while i < end
        invariant
            start <= i <= end <= log.len(),
            r@ == log@.subrange(start as int, i as int),
        decreases end - i,
    {
        r.push(log[i]);
        i = i + 1;
        assert(r@ =~= log@.subrange(start as int, i as int));
    }
    r
}


/// Appending the line of a record to a closed log makes it the live record of
/// its key, or deletes its key when it is a tombstone; no other key changes.
pub proof fn lemma_live_append(log: Seq<char>, r: RecordModel)
    requires
        is_closed(log),
    ensures
        live_records(log + record_line(r)) == (if r.tombstone {
            live_records(log).remove(r.key)
        } else {
            live_records(log).insert(r.key, r.data)
        }),
{
    let full = log + record_line(r);
    let n = log.len() as int;
    lemma_index_append(log, r);
    lemma_index_sound(log);
    lemma_round_trip(r);
    let before = live_records(log);
    let after = live_records(full);
    let expect = if r.tombstone {
        before.remove(r.key)
    } else {
        before.insert(r.key, r.data)
    };
    assert forall|k: i32| #[trigger] after.contains_key(k) == expect.contains_key(k) by {}
    assert forall|k: i32| #[trigger] after.contains_key(k) implies after[k] == expect[k] by {
        if k != r.key {
            let o = index_of(log)[k];
            assert(holds_live(log, o, k));
            lemma_line_at_extend(log, record_line(r), o);
        }
    }
    assert(after =~= expect);
}


/// After a tombstone of `k`, a new live record `(k, d)` makes `k` live with
/// `d`, and leaves every other key as it was.
pub proof fn lemma_delete_then_add(log: Seq<char>, k: i32, d: Seq<char>)
    requires
        is_closed(log),
    ensures
        !live_records(log + record_line(RecordModel { key: k, data: Seq::empty(), tombstone: true }))
            .contains_key(k),
        live_records(
            log + record_line(RecordModel { key: k, data: Seq::empty(), tombstone: true })
                + record_line(RecordModel { key: k, data: d, tombstone: false }),
        ) == live_records(log).insert(k, d),
{
    let t = RecordModel { key: k, data: Seq::empty(), tombstone: true };
    let a = RecordModel { key: k, data: d, tombstone: false };
    lemma_live_append(log, t);
    lemma_index_append(log, t);
    lemma_live_append(log + record_line(t), a);
    assert(live_records(log).remove(k).insert(k, d) =~= live_records(log).insert(k, d));
}

/// Once `(k, d1)` is live, `k` stays live with `d1`: a second add of `k` is
/// refused and leaves it so.
pub proof fn lemma_add_then_add(log: Seq<char>, k: i32, d1: Seq<char>)
    requires
        is_closed(log),
    ensures
        live_records(log + record_line(RecordModel { key: k, data: d1, tombstone: false }))
            .contains_key(k),
        live_records(log + record_line(RecordModel { key: k, data: d1, tombstone: false }))[k] == d1,
{
    lemma_live_append(log, RecordModel { key: k, data: d1, tombstone: false });
}

/// A new version `(k, d2)` appended after `(k, d1)` is what `k` reads, and
/// every other key reads as before both.
pub proof fn lemma_update_visible(log: Seq<char>, k: i32, d1: Seq<char>, d2: Seq<char>)
    requires
        is_closed(log),
    ensures
        live_records(
            log + record_line(RecordModel { key: k, data: d1, tombstone: false })
                + record_line(RecordModel { key: k, data: d2, tombstone: false }),
        )[k] == d2,
        forall|j: i32|
            j != k ==> (#[trigger] live_records(
                log + record_line(RecordModel { key: k, data: d1, tombstone: false })
                    + record_line(RecordModel { key: k, data: d2, tombstone: false }),
            ).contains_key(j) == live_records(log).contains_key(j)) && (live_records(log).contains_key(j)
                ==> live_records(
                log + record_line(RecordModel { key: k, data: d1, tombstone: false })
                    + record_line(RecordModel { key: k, data: d2, tombstone: false }),
            )[j] == live_records(log)[j]),
{
    let a = RecordModel { key: k, data: d1, tombstone: false };
    let b = RecordModel { key: k, data: d2, tombstone: false };
    lemma_live_append(log, a);
    lemma_index_append(log, a);
    lemma_live_append(log + record_line(a), b);
}

} // verus!
