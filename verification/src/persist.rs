//! A persistent event log with compaction: an append-only log of keyed
//! events plus a compacted table holding the latest event per compaction
//! key.  When the log grows past a high-water mark it is compacted and
//! trimmed down to a low-water mark; the compacted table preserves the
//! most recent event per key beyond the trimmed tail.  History reads
//! return the compacted events and then the log rows past the compaction
//! boundary, so nothing retained is replayed twice and nothing is skipped.
//!
//! This is the decision core of the backing store: what is appended,
//! copied, trimmed and replayed.  Writing rows to durable storage is I/O
//! and lives outside this crate.

use vstd::prelude::*;

use crate::fsm::CloneView;

verus! {

/// An event that can be persisted: it declares the compaction key under
/// which only its latest occurrence must be retained.
pub trait Persistable: View {
    /// The compaction key of an event with this view.
    spec fn spec_key(v: Self::V) -> u64;

    /// The compaction key for this event.
    fn compaction_key(&self) -> (k: u64)
        ensures
            k == Self::spec_key(self@),
    ;
}

/// One stored row: an offset, a compaction key, and the event.
pub type Row<T> = (u64, u64, T);

/// The view of a [`BackingStore`].
pub struct StoreView<T> {
    /// The log rows, in ascending offset order.
    pub log: Seq<Row<T>>,
    /// The compacted rows, one per key, in ascending offset order.
    pub compacted: Seq<Row<T>>,
    /// The offset the next appended event receives.
    pub next_offset: u64,
    /// The highest offset the compacted table accounts for, if any.
    pub boundary: Option<u64>,
    /// The number of log rows kept by a trim.
    pub log_low: usize,
    /// The number of log rows that triggers a compaction.
    pub log_high: usize,
}

/// Whether an offset lies beyond the compaction boundary.
pub open spec fn beyond<T>(b: Option<u64>, row: Row<T>) -> bool {
    match b {
        None => true,
        Some(x) => row.0 > x,
    }
}

/// The log rows beyond the boundary, in order.
pub open spec fn rows_beyond<T>(log: Seq<Row<T>>, b: Option<u64>) -> Seq<Row<T>>
    decreases log.len(),
{
    if log.len() == 0 {
        Seq::empty()
    } else {
        let rest = rows_beyond(log.drop_last(), b);
        if beyond(b, log.last()) {
            rest.push(log.last())
        } else {
            rest
        }
    }
}

/// The compacted table without any row of the given key.
pub open spec fn remove_key<T>(c: Seq<Row<T>>, key: u64) -> Seq<Row<T>>
    decreases c.len(),
{
    if c.len() == 0 {
        c
    } else {
        let rest = remove_key(c.drop_last(), key);
        if c.last().1 == key {
            rest
        } else {
            rest.push(c.last())
        }
    }
}

/// One row upserted into the compacted table: any older row of the same
/// key goes, the new row arrives at the end.
pub open spec fn upsert_row<T>(c: Seq<Row<T>>, row: Row<T>) -> Seq<Row<T>> {
    remove_key(c, row.1).push(row)
}

/// A run of rows upserted into the compacted table, in order.
pub open spec fn compact_rows<T>(c: Seq<Row<T>>, rows: Seq<Row<T>>) -> Seq<Row<T>>
    decreases rows.len(),
{
    if rows.len() == 0 {
        c
    } else {
        upsert_row(compact_rows(c, rows.drop_last()), rows.last())
    }
}

/// The store after a compaction: the fresh log rows are folded into the
/// compacted table, the boundary moves to the last log offset, and an
/// over-full log is trimmed to its last `log_low` rows.
pub open spec fn spec_compact<T>(v: StoreView<T>) -> StoreView<T> {
    if v.log.len() == 0 {
        v
    } else {
        let fresh = rows_beyond(v.log, v.boundary);
        let log2 = if v.log.len() > v.log_high {
            v.log.skip(v.log.len() - v.log_low as int)
        } else {
            v.log
        };
        let last = v.log.last().0;
        let b2 = match v.boundary {
            None => last,
            Some(x) => if last > x {
                last
            } else {
                x
            },
        };
        StoreView { log: log2, compacted: compact_rows(v.compacted, fresh), boundary: Some(b2), ..v }
    }
}

/// The store after one event is appended, before any compaction.
pub open spec fn spec_append<T>(v: StoreView<T>, key: u64, item: T) -> StoreView<T> {
    StoreView {
        log: v.log.push((v.next_offset, key, item)),
        next_offset: (v.next_offset + 1) as u64,
        ..v
    }
}

/// The store after one event is produced: appended, then compacted if the
/// log has outgrown the high-water mark.
pub open spec fn spec_produce<T>(v: StoreView<T>, key: u64, item: T) -> StoreView<T> {
    let v2 = spec_append(v, key, item);
    if v2.log.len() > v2.log_high {
        spec_compact(v2)
    } else {
        v2
    }
}

/// The events a history read replays, in order: the compacted events,
/// then the log rows beyond the boundary.
pub open spec fn spec_history<T>(v: StoreView<T>) -> Seq<Row<T>> {
    v.compacted + rows_beyond(v.log, v.boundary)
}

/// Offsets strictly ascend across a row sequence.
pub open spec fn ascending<T>(rows: Seq<Row<T>>) -> bool {
    forall|i: int, j: int|
        #![trigger rows[i], rows[j]]
        0 <= i < j < rows.len() ==> rows[i].0 < rows[j].0
}

/// Keys occur at most once in a row sequence.
pub open spec fn keys_unique<T>(rows: Seq<Row<T>>) -> bool {
    forall|i: int, j: int|
        #![trigger rows[i], rows[j]]
        0 <= i < rows.len() && 0 <= j < rows.len() && i != j ==> rows[i].1 != rows[j].1
}

/// All offsets lie at or below the boundary, when there is one.
pub open spec fn bounded_by<T>(rows: Seq<Row<T>>, b: Option<u64>) -> bool {
    match b {
        None => rows.len() == 0,
        Some(x) => forall|i: int| 0 <= i < rows.len() ==> (#[trigger] rows[i]).0 <= x,
    }
}

/// A well-formed store: both tables ascend, compacted keys are unique,
/// compacted rows sit at or below the boundary, every offset is below the
/// next one to be handed out, and the water marks are sane.
pub open spec fn store_wf<T>(v: StoreView<T>) -> bool {
    &&& ascending(v.log)
    &&& ascending(v.compacted)
    &&& keys_unique(v.compacted)
    &&& bounded_by(v.compacted, v.boundary)
    &&& (forall|i: int| 0 <= i < v.log.len() ==> (#[trigger] v.log[i]).0 < v.next_offset)
    &&& (match v.boundary {
        None => true,
        Some(x) => x < v.next_offset,
    })
    &&& 1 <= v.log_low
    &&& v.log_low + 2 <= v.log_high
}

/// The rows beyond a boundary keep their order and really lie beyond it.
proof fn lemma_rows_beyond<T>(log: Seq<Row<T>>, b: Option<u64>)
    requires
        ascending(log),
    ensures
        ascending(rows_beyond(log, b)),
        forall|i: int|
            0 <= i < rows_beyond(log, b).len() ==> beyond(b, #[trigger] rows_beyond(log, b)[i]),
        forall|i: int|
            0 <= i < rows_beyond(log, b).len() ==> exists|j: int|
                0 <= j < log.len() && log[j] == #[trigger] rows_beyond(log, b)[i],
    decreases log.len(),
{
    if log.len() > 0 {
        assert(forall|i: int, j: int|
            #![trigger log.drop_last()[i], log.drop_last()[j]]
            0 <= i < j < log.drop_last().len() ==> log.drop_last()[i].0 < log.drop_last()[j].0);
        lemma_rows_beyond(log.drop_last(), b);
        let r = rows_beyond(log, b);
        let rest = rows_beyond(log.drop_last(), b);
        assert forall|i: int| 0 <= i < r.len() implies exists|j: int|
            0 <= j < log.len() && log[j] == #[trigger] r[i] by {
            if !(beyond(b, log.last()) && i == r.len() - 1) {
                let j = choose|j: int|
                    0 <= j < log.drop_last().len() && log.drop_last()[j] == #[trigger] rest[i];
                assert(log[j] == r[i]);
            } else {
                assert(log[log.len() - 1] == r[i]);
            }
        }
        if beyond(b, log.last()) {
            assert forall|i: int, j: int|
                #![trigger r[i], r[j]]
                0 <= i < j < r.len() implies r[i].0 < r[j].0 by {
                if j == r.len() - 1 {
                    let l = choose|l: int|
                        0 <= l < log.drop_last().len() && log.drop_last()[l] == #[trigger] rest[i];
                    assert(log[l].0 < log.last().0);
                }
            }
        }
    }
}

/// Removing a key keeps the order, the other keys, and the provenance of
/// every row.
proof fn lemma_remove_key_wf<T>(c: Seq<Row<T>>, key: u64)
    requires
        ascending(c),
        keys_unique(c),
    ensures
        ascending(remove_key(c, key)),
        keys_unique(remove_key(c, key)),
        forall|i: int| 0 <= i < remove_key(c, key).len() ==> (#[trigger] remove_key(c, key)[i]).1 != key,
        forall|i: int|
            0 <= i < remove_key(c, key).len() ==> exists|j: int|
                0 <= j < c.len() && c[j] == #[trigger] remove_key(c, key)[i],
    decreases c.len(),
{
    if c.len() > 0 {
        let dl = c.drop_last();
        assert(forall|i: int, j: int|
            #![trigger dl[i], dl[j]]
            0 <= i < j < dl.len() ==> dl[i].0 < dl[j].0);
        assert(forall|i: int, j: int|
            #![trigger dl[i], dl[j]]
            0 <= i < dl.len() && 0 <= j < dl.len() && i != j ==> dl[i].1 != dl[j].1);
        lemma_remove_key_wf(dl, key);
        let rest = remove_key(dl, key);
        let r = remove_key(c, key);
        assert forall|i: int| 0 <= i < r.len() implies exists|j: int|
            0 <= j < c.len() && c[j] == #[trigger] r[i] by {
            if c.last().1 != key && i == r.len() - 1 {
                assert(c[c.len() - 1] == r[i]);
            } else {
                let j = choose|j: int| 0 <= j < dl.len() && dl[j] == #[trigger] rest[i];
                assert(c[j] == r[i]);
            }
        }
        if c.last().1 != key {
            assert forall|i: int, j: int|
                #![trigger r[i], r[j]]
                0 <= i < j < r.len() implies r[i].0 < r[j].0 by {
                if j == r.len() - 1 {
                    let l = choose|l: int| 0 <= l < dl.len() && dl[l] == #[trigger] rest[i];
                    assert(c[l].0 < c.last().0);
                }
            }
            assert forall|i: int, j: int|
                #![trigger r[i], r[j]]
                0 <= i < r.len() && 0 <= j < r.len() && i != j implies r[i].1 != r[j].1 by {
                if j == r.len() - 1 {
                    let l = choose|l: int| 0 <= l < dl.len() && dl[l] == #[trigger] rest[i];
                    assert(c[l].1 != c.last().1);
                } else if i == r.len() - 1 {
                    let l = choose|l: int| 0 <= l < dl.len() && dl[l] == #[trigger] rest[j];
                    assert(c[l].1 != c.last().1);
                }
            }
        }
    }
}

/// When some row holds the key, and keys are unique, removing the key
/// removes exactly that row.
proof fn lemma_remove_key_found<T>(c: Seq<Row<T>>, key: u64, j: int)
    requires
        keys_unique(c),
        0 <= j < c.len(),
        c[j].1 == key,
    ensures
        remove_key(c, key) == c.remove(j),
    decreases c.len(),
{
    let dl = c.drop_last();
    assert(forall|a: int, b: int|
        #![trigger dl[a], dl[b]]
        0 <= a < dl.len() && 0 <= b < dl.len() && a != b ==> dl[a].1 != dl[b].1);
    if j == c.len() - 1 {
        assert(forall|i: int| 0 <= i < dl.len() ==> (#[trigger] dl[i]).1 != key);
        lemma_remove_key_absent(dl, key);
        assert(c.remove(j) =~= dl);
    } else {
        assert(dl[j] == c[j]);
        lemma_remove_key_found(dl, key, j);
        assert(c.last().1 != key);
        assert(remove_key(c, key) == dl.remove(j).push(c.last()));
        c.remove_ensures(j);
        dl.remove_ensures(j);
        assert(dl.remove(j).push(c.last()) =~= c.remove(j));
    }
}

/// When no row holds the key, removing it changes nothing.
proof fn lemma_remove_key_absent<T>(c: Seq<Row<T>>, key: u64)
    requires
        forall|i: int| 0 <= i < c.len() ==> (#[trigger] c[i]).1 != key,
    ensures
        remove_key(c, key) == c,
    decreases c.len(),
{
    if c.len() > 0 {
        assert(forall|i: int|
            0 <= i < c.drop_last().len() ==> (#[trigger] c.drop_last()[i]).1 != key);
        lemma_remove_key_absent(c.drop_last(), key);
        assert(c.drop_last().push(c.last()) =~= c);
    }
}

/// Folding fresh rows into a compacted table keeps it well formed: the
/// result ascends, keys stay unique, and every offset is bounded by the
/// last fresh row (or stays within the old bound when there are none).
proof fn lemma_compact_rows_wf<T>(c: Seq<Row<T>>, rows: Seq<Row<T>>, cb: int)
    requires
        ascending(c),
        keys_unique(c),
        ascending(rows),
        forall|i: int| 0 <= i < c.len() ==> (#[trigger] c[i]).0 <= cb,
        forall|i: int| 0 <= i < rows.len() ==> (#[trigger] rows[i]).0 > cb,
    ensures
        ascending(compact_rows(c, rows)),
        keys_unique(compact_rows(c, rows)),
        rows.len() == 0 ==> forall|i: int|
            0 <= i < compact_rows(c, rows).len() ==> (#[trigger] compact_rows(c, rows)[i]).0 <= cb,
        rows.len() > 0 ==> forall|i: int|
            0 <= i < compact_rows(c, rows).len() ==> (#[trigger] compact_rows(c, rows)[i]).0
                <= rows.last().0,
    decreases rows.len(),
{
    if rows.len() > 0 {
        let dl = rows.drop_last();
        assert(forall|i: int, j: int|
            #![trigger dl[i], dl[j]]
            0 <= i < j < dl.len() ==> dl[i].0 < dl[j].0);
        assert(forall|i: int| 0 <= i < dl.len() ==> (#[trigger] dl[i]).0 > cb);
        lemma_compact_rows_wf(c, dl, cb);
        let prev = compact_rows(c, dl);
        let row = rows.last();
        lemma_remove_key_wf(prev, row.1);
        let cleaned = remove_key(prev, row.1);
        assert forall|i: int| 0 <= i < cleaned.len() implies (#[trigger] cleaned[i]).0 < row.0 by {
            let j = choose|j: int| 0 <= j < prev.len() && prev[j] == #[trigger] cleaned[i];
            if dl.len() == 0 {
                assert(prev[j].0 <= cb);
            } else {
                assert(prev[j].0 <= dl.last().0);
                assert(dl.last().0 < row.0);
            }
        }
        let r = compact_rows(c, rows);
        assert(r == cleaned.push(row));
        assert forall|i: int, j: int|
            #![trigger r[i], r[j]]
            0 <= i < j < r.len() implies r[i].0 < r[j].0 by {
            if j == r.len() - 1 {
                assert(r[i] == cleaned[i]);
            } else {
                assert(r[i] == cleaned[i] && r[j] == cleaned[j]);
            }
        }
        assert forall|i: int, j: int|
            #![trigger r[i], r[j]]
            0 <= i < r.len() && 0 <= j < r.len() && i != j implies r[i].1 != r[j].1 by {
            if j == r.len() - 1 {
                assert(r[i] == cleaned[i]);
            } else if i == r.len() - 1 {
                assert(r[j] == cleaned[j]);
            } else {
                assert(r[i] == cleaned[i] && r[j] == cleaned[j]);
            }
        }
    }
}

/// History replays strictly ascending offsets: the compacted rows, all at
/// or below the boundary, then the log rows beyond it.  No retained event
/// is replayed twice, and none is skipped between the two parts.
pub proof fn lemma_history_ascending<T>(v: StoreView<T>)
    requires
        store_wf(v),
    ensures
        ascending(spec_history(v)),
{
    lemma_rows_beyond(v.log, v.boundary);
    let tail = rows_beyond(v.log, v.boundary);
    let h = spec_history(v);
    assert forall|i: int, j: int|
        #![trigger h[i], h[j]]
        0 <= i < j < h.len() implies h[i].0 < h[j].0 by {
        let n = v.compacted.len();
        if i < n && j < n {
            assert(h[i] == v.compacted[i] && h[j] == v.compacted[j]);
        } else if i < n && j >= n {
            assert(h[i] == v.compacted[i] && h[j] == tail[j - n]);
            assert(beyond(v.boundary, tail[j - n]));
        } else {
            assert(h[i] == tail[i - n] && h[j] == tail[j - n]);
        }
    }
}

/// The views of stored rows.
pub open spec fn rows_view<A: View>(s: Seq<(u64, u64, A)>) -> Seq<Row<A::V>> {
    s.map_values(|r: (u64, u64, A)| (r.0, r.1, r.2@))
}

/// The backing store: an append-only log and a compacted
/// latest-event-per-key table, with high- and low-water marks that govern
/// trimming.
#[derive(Debug)]
pub struct BackingStore<A: View> {
    log: Vec<(u64, u64, A)>,
    compacted: Vec<(u64, u64, A)>,
    next_offset: u64,
    boundary: Option<u64>,
    log_low: usize,
    log_high: usize,
}

impl<A: View> View for BackingStore<A> {
    type V = StoreView<A::V>;

    closed spec fn view(&self) -> StoreView<A::V> {
        StoreView {
            log: rows_view(self.log@),
            compacted: rows_view(self.compacted@),
            next_offset: self.next_offset,
            boundary: self.boundary,
            log_low: self.log_low,
            log_high: self.log_high,
        }
    }
}

impl<A: View> BackingStore<A> {
    #[verifier::type_invariant]
    spec fn wf(self) -> bool {
        store_wf(self@)
    }

    /// An empty store.  The low level is held to at least one and the
    /// high level to at least two above it.
    pub fn new(low_level: usize, high_level: usize) -> (r: Self)
        ensures
            r@.log == Seq::<Row<A::V>>::empty(),
            r@.compacted == Seq::<Row<A::V>>::empty(),
            r@.next_offset == 0,
            r@.boundary == None::<u64>,
            r@.log_low == (if low_level < 1 {
                1usize
            } else if low_level > usize::MAX - 2 {
                (usize::MAX - 2) as usize
            } else {
                low_level
            }),
            r@.log_high >= r@.log_low + 2,
            high_level >= r@.log_low + 2 ==> r@.log_high == high_level,
            high_level < r@.log_low + 2 ==> r@.log_high == r@.log_low + 2,
    {
        let log_low = if low_level < 1 {
            1
        } else if low_level > usize::MAX - 2 {
            usize::MAX - 2
        } else {
            low_level
        };
        let log_high = if high_level < log_low + 2 {
            log_low + 2
        } else {
            high_level
        };
        let r = BackingStore {
            log: Vec::new(),
            compacted: Vec::new(),
            next_offset: 0,
            boundary: None,
            log_low,
            log_high,
        };
        proof {
            assert(r@.log =~= Seq::<Row<A::V>>::empty());
            assert(r@.compacted =~= Seq::<Row<A::V>>::empty());
        }
        r
    }

    /// Append one event under its compaction key, and compact when the
    /// log has outgrown the high-water mark.
    pub fn produce(&mut self, item: A) where A: Persistable + CloneView
        requires
            old(self)@.next_offset < u64::MAX,
        ensures
            final(self)@ == spec_produce(old(self)@, A::spec_key(item@), item@),
    {
        proof {
            use_type_invariant(&*self);
        }
        let ghost pre = self@;
        let key = item.compaction_key();
        let ghost itemv = item@;
        let mut log: Vec<(u64, u64, A)> = Vec::new();
        core::mem::swap(&mut log, &mut self.log);
        log.push((self.next_offset, key, item));
        self.next_offset = self.next_offset + 1;
        proof {
            assert(rows_view(log@) =~= pre.log.push((pre.next_offset, A::spec_key(itemv), itemv)));
        }
        self.log = log;
        proof {
            assert(self@ == spec_append(pre, A::spec_key(itemv), itemv));
        }
        if self.log.len() > self.log_high {
            self.compact();
        }
    }

    /// Fold the log rows beyond the boundary into the compacted table,
    /// advance the boundary to the last log offset, and trim an over-full
    /// log down to the low-water mark.
    pub fn compact(&mut self) where A: CloneView
        ensures
            final(self)@ == spec_compact(old(self)@),
    {
        proof {
            use_type_invariant(&*self);
        }
        let ghost pre = self@;
        if self.log.is_empty() {
            return ;
        }
        let mut log: Vec<(u64, u64, A)> = Vec::new();
        core::mem::swap(&mut log, &mut self.log);
        let mut c: Vec<(u64, u64, A)> = Vec::new();
        core::mem::swap(&mut c, &mut self.compacted);
        let ghost cb: int = match pre.boundary {
            None => -1,
            Some(x) => x as int,
        };
        let n = log.len();
        for i in 0..n
            invariant
                n == log@.len(),
                n > 0,
                rows_view(log@) == pre.log,
                self.boundary == pre.boundary,
                store_wf(pre),
                cb == (match pre.boundary {
                    None => -1,
                    Some(x) => x as int,
                }),
                ascending(rows_view(c@)),
                keys_unique(rows_view(c@)),
                rows_view(c@) == compact_rows(
                    pre.compacted,
                    rows_beyond(pre.log.take(i as int), pre.boundary),
                ),
        {
            let row_offset = log[i].0;
            let row_key = log[i].1;
            let ghost crows = rows_view(c@);
            let ghost takei = pre.log.take(i as int);
            let fresh = match self.boundary {
                None => true,
                Some(x) => row_offset > x,
            };
            proof {
                assert(pre.log.take(i + 1).drop_last() =~= takei);
                assert(pre.log.take(i + 1).last() == pre.log[i as int]);
                assert(pre.log[i as int].0 == row_offset);
                assert(beyond(pre.boundary, pre.log[i as int]) == fresh);
            }
            if fresh {
                let mut found: Option<usize> = None;
                let m = c.len();
                let mut j: usize = 0;
                while j < m
                    invariant
                        j <= m,
                        m == c@.len(),
                        (match found {
                            Some(f) => f < m && c@[f as int].1 == row_key,
                            None => forall|l: int| 0 <= l < j ==> (#[trigger] c@[l]).1 != row_key,
                        }),
                    decreases m - j,
                {
                    if matches!(found, None) && c[j].1 == row_key {
                        found = Some(j);
                    }
                    j = j + 1;
                }
                proof {
                    match found {
                        Some(f) => {
                            assert(crows[f as int] == (c@[f as int].0, c@[f as int].1, c@[f as int].2@));
                            assert(crows[f as int].1 == row_key);
                            lemma_remove_key_found(crows, row_key, f as int);
                        },
                        None => {
                            assert forall|l: int|
                                0 <= l < crows.len() implies (#[trigger] crows[l]).1 != row_key by {
                                assert(crows[l] == (c@[l].0, c@[l].1, c@[l].2@));
                            }
                            lemma_remove_key_absent(crows, row_key);
                        },
                    }
                }
                let ghost removed = remove_key(crows, row_key);
                match found {
                    Some(f) => {
                        c.remove(f);
                        proof {
                            assert(rows_view(c@) =~= removed);
                        }
                    },
                    None => {
                        proof {
                            assert(rows_view(c@) =~= removed);
                        }
                    },
                }
                let value = {
                    let r = &log[i];
                    r.2.clone_view()
                };
                c.push((row_offset, row_key, value));
                proof {
                    let rb = rows_beyond(takei, pre.boundary);
                    let row = pre.log[i as int];
                    assert(row.1 == row_key);
                    assert(row.0 == row_offset);
                    assert(rows_view(c@) =~= removed.push(row));
                    assert(rows_beyond(pre.log.take(i + 1), pre.boundary) =~= rb.push(row));
                    assert(rb.push(row).drop_last() =~= rb);
                    assert(rb.push(row).last() == row);
                    assert(compact_rows(pre.compacted, rb.push(row)) == upsert_row(
                        compact_rows(pre.compacted, rb),
                        row,
                    ));
                    assert(compact_rows(pre.compacted, rb) == crows);
                    assert(removed.push(row) == upsert_row(crows, row));
                    assert(forall|a: int, b: int|
                        #![trigger takei[a], takei[b]]
                        0 <= a < b < takei.len() ==> takei[a].0 < takei[b].0);
                    lemma_rows_beyond(takei, pre.boundary);
                    lemma_compact_rows_wf(pre.compacted, rows_beyond(takei, pre.boundary), cb);
                    assert forall|a: int|
                        0 <= a < rows_beyond(takei, pre.boundary).len() implies (
                        #[trigger] rows_beyond(takei, pre.boundary)[a]).0 > cb by {
                        let w = choose|w: int|
                            0 <= w < takei.len() && takei[w] == rows_beyond(takei, pre.boundary)[a];
                    }
                    lemma_compact_rows_wf(
                        pre.compacted,
                        rows_beyond(pre.log.take(i + 1), pre.boundary),
                        cb,
                    );
                    assert forall|a: int|
                        0 <= a < rows_beyond(pre.log.take(i + 1), pre.boundary).len() implies (
                        #[trigger] rows_beyond(pre.log.take(i + 1), pre.boundary)[a]).0 > cb by {
                        let t2 = pre.log.take(i + 1);
                        let w = choose|w: int|
                            0 <= w < t2.len() && t2[w] == rows_beyond(t2, pre.boundary)[a];
                    }
                }
            } else {
                proof {
                    assert(rows_beyond(pre.log.take(i + 1), pre.boundary) =~= rows_beyond(
                        takei,
                        pre.boundary,
                    ));
                }
            }
        }
        proof {
            assert(pre.log.take(n as int) =~= pre.log);
        }
        let last_offset = log[n - 1].0;
        proof {
            assert(pre.log.last().0 == last_offset);
        }
        let b2 = match self.boundary {
            None => last_offset,
            Some(x) => if last_offset > x {
                last_offset
            } else {
                x
            },
        };
        if log.len() > self.log_high {
            let at = log.len() - self.log_low;
            let tail = log.split_off(at);
            log = tail;
            proof {
                assert(rows_view(log@) =~= pre.log.skip(pre.log.len() - pre.log_low as int));
            }
        }
        self.boundary = Some(b2);
        proof {
            let fresh = rows_beyond(pre.log, pre.boundary);
            lemma_rows_beyond(pre.log, pre.boundary);
            lemma_compact_rows_wf(pre.compacted, fresh, cb);
            assert forall|a: int| 0 <= a < fresh.len() implies (#[trigger] fresh[a]).0 > cb by {
                let w = choose|w: int| 0 <= w < pre.log.len() && pre.log[w] == fresh[a];
            }
            assert forall|a: int|
                0 <= a < compact_rows(pre.compacted, fresh).len() implies (#[trigger] compact_rows(
                pre.compacted,
                fresh,
            )[a]).0 <= b2 by {
                if fresh.len() > 0 {
                    let w = choose|w: int|
                        0 <= w < pre.log.len() && pre.log[w] == fresh[fresh.len() - 1];
                    assert(fresh.last().0 <= pre.log.last().0);
                }
            }
        }
        self.compacted = c;
        self.log = log;
    }

    /// The events a hydration replays: the compacted events, oldest
    /// boundary first, then the log rows beyond the boundary, in offset
    /// order.
    pub fn history(&self) -> (r: Vec<&A>)
        ensures
            r@.len() == spec_history(self@).len(),
            forall|i: int| 0 <= i < r@.len() ==> (#[trigger] r@[i])@ == spec_history(self@)[i].2,
    {
        proof {
            use_type_invariant(self);
        }
        let mut r: Vec<&A> = Vec::new();
        let nc = self.compacted.len();
        for i in 0..nc
            invariant
                nc == self.compacted@.len(),
                r@.len() == i,
                forall|j: int| 0 <= j < i ==> (#[trigger] r@[j])@ == self@.compacted[j].2,
        {
            r.push(&self.compacted[i].2);
        }
        let nl = self.log.len();
        let ghost tail = rows_beyond(self@.log, self@.boundary);
        proof {
            assert(self@.log.take(0) =~= Seq::<Row<A::V>>::empty());
        }
        for i in 0..nl
            invariant
                nl == self.log@.len(),
                nc == self.compacted@.len(),
                r@.len() == nc + rows_beyond(self@.log.take(i as int), self@.boundary).len(),
                forall|j: int| 0 <= j < nc ==> (#[trigger] r@[j])@ == self@.compacted[j].2,
                forall|j: int|
                    nc <= j < r@.len() ==> (#[trigger] r@[j])@ == rows_beyond(
                        self@.log.take(i as int),
                        self@.boundary,
                    )[j - nc].2,
        {
            let fresh = match self.boundary {
                None => true,
                Some(x) => self.log[i].0 > x,
            };
            proof {
                assert(self@.log.take(i + 1).drop_last() =~= self@.log.take(i as int));
                assert(self@.log.take(i + 1).last() == self@.log[i as int]);
                assert(beyond(self@.boundary, self@.log[i as int]) == fresh);
            }
            if fresh {
                r.push(&self.log[i].2);
            }
        }
        proof {
            assert(self@.log.take(nl as int) =~= self@.log);
        }
        r
    }

    /// The log row at the given position: offset, key, and event.
    pub fn log_row(&self, i: usize) -> (r: (u64, u64, &A))
        requires
            i < self@.log.len(),
        ensures
            r.0 == self@.log[i as int].0,
            r.1 == self@.log[i as int].1,
            r.2@ == self@.log[i as int].2,
    {
        let row = &self.log[i];
        (row.0, row.1, &row.2)
    }

    /// The compacted row at the given position: offset, key, and event.
    pub fn compacted_row(&self, i: usize) -> (r: (u64, u64, &A))
        requires
            i < self@.compacted.len(),
        ensures
            r.0 == self@.compacted[i as int].0,
            r.1 == self@.compacted[i as int].1,
            r.2@ == self@.compacted[i as int].2,
    {
        let row = &self.compacted[i];
        (row.0, row.1, &row.2)
    }

    /// The offset the next appended event will receive.
    pub fn next_offset(&self) -> (n: u64)
        ensures
            n == self@.next_offset,
    {
        self.next_offset
    }

    /// How many rows the log holds.
    pub fn log_len(&self) -> (n: usize)
        ensures
            n == self@.log.len(),
    {
        self.log.len()
    }

    /// How many rows the compacted table holds.
    pub fn compacted_len(&self) -> (n: usize)
        ensures
            n == self@.compacted.len(),
    {
        self.compacted.len()
    }
}

} // verus!
