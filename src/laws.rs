//! Properties of the store that relate several operations, stated over the
//! same models that the operations' contracts use, and proved.
use vstd::prelude::*;
use crate::collection::{spec_appended, spec_flatten, spec_full_prefix, spec_normalize};
use crate::compaction::lemma_rev_index;
use crate::log_entry::{EntryView, RowView, spec_tx_of};
use crate::mvcc::{ScanView, spec_initial_scan, spec_newest_first, spec_older, spec_rev, spec_scan_rows, spec_step, spec_visible_rows};

verus! {

/// Appending records never leaves a segment behind the last one that is
/// not full: if every segment but the last held `max` records before, so
/// does every segment but the last after.
pub proof fn lemma_append_keeps_segments_full(before: Seq<Seq<EntryView>>, after: Seq<Seq<EntryView>>, max: nat, entries: Seq<EntryView>)
    requires
        before.len() >= 1,
        spec_full_prefix(before, max),
        spec_appended(before, after, max, entries),
    ensures
        spec_full_prefix(after, max),
{
    assert forall|k: int| 0 <= k < after.len() - 1 implies #[trigger] after[k].len() == max by {
        if k < before.len() - 1 {
            assert(after[k] == before[k]);
        }
    }
}

proof fn lemma_flatten_split(s: Seq<Seq<EntryView>>, m: int)
    requires
        0 <= m <= s.len(),
    ensures
        spec_flatten(s) == spec_flatten(s.take(m)) + spec_flatten(s.skip(m)),
    decreases s.len(),
{
    if m == s.len() {
        assert(s.take(m) =~= s);
        assert(s.skip(m) =~= Seq::<Seq<EntryView>>::empty());
        assert(spec_flatten(s) + Seq::<EntryView>::empty() =~= spec_flatten(s));
    } else {
        lemma_flatten_split(s.drop_last(), m);
        assert(s.drop_last().take(m) =~= s.take(m));
        assert(s.skip(m).drop_last() =~= s.drop_last().skip(m));
        assert(s.skip(m).last() == s.last());
        assert(spec_flatten(s.skip(m)) == spec_flatten(s.skip(m).drop_last()) + s.skip(m).last());
        assert(spec_flatten(s) =~= spec_flatten(s.take(m)) + spec_flatten(s.skip(m)));
    }
}

proof fn lemma_flatten_one(s: Seq<EntryView>)
    ensures
        spec_flatten(seq![s]) == s,
{
    assert(seq![s].drop_last() =~= Seq::<Seq<EntryView>>::empty());
    assert(spec_flatten(Seq::<Seq<EntryView>>::empty()) == Seq::<EntryView>::empty());
    assert(spec_flatten(seq![s]) =~= s);
}

/// The segments before index `l` are unchanged by an append.
proof fn lemma_appended_prefix(before: Seq<Seq<EntryView>>, after: Seq<Seq<EntryView>>, max: nat, entries: Seq<EntryView>)
    requires
        before.len() >= 1,
        spec_appended(before, after, max, entries),
    ensures
        ({
            let l = before.len() - 1;
            spec_flatten(after.skip(l)) == before[l] + entries
        }),
{
    let l = before.len() - 1;
    assert(after.take(l) =~= before.take(l));
    lemma_flatten_split(after, l);
    lemma_flatten_split(before, l);
    assert(before.skip(l) =~= seq![before[l]]);
    lemma_flatten_one(before[l]);
    let p = spec_flatten(before.take(l));
    assert(spec_flatten(after) == p + spec_flatten(after.skip(l)));
    assert(spec_flatten(after) == p + before[l] + entries);
    assert(spec_flatten(after.skip(l)) =~= (p + before[l] + entries).subrange(p.len() as int, spec_flatten(after).len() as int));
}

/// Records that fit in the last segment go there: no segment is opened
/// and the last segment becomes the old one followed by the records.
pub proof fn lemma_append_fits_last_segment(before: Seq<Seq<EntryView>>, after: Seq<Seq<EntryView>>, max: nat, entries: Seq<EntryView>)
    requires
        before.len() >= 1,
        spec_appended(before, after, max, entries),
        before.last().len() + entries.len() <= max,
    ensures
        after.len() == before.len(),
        after.last() == before.last() + entries,
{
    let l = before.len() - 1;
    lemma_appended_prefix(before, after, max, entries);
    assert(after.skip(l) =~= seq![after[l]]);
    lemma_flatten_one(after[l]);
}

/// When the last segment is full, one more record opens the next segment,
/// which then holds that record alone.
pub proof fn lemma_full_segment_opens_next(before: Seq<Seq<EntryView>>, after: Seq<Seq<EntryView>>, max: nat, e: EntryView)
    requires
        before.len() >= 1,
        max >= 1,
        spec_appended(before, after, max, seq![e]),
        before.last().len() == max,
        forall|k: int| 0 <= k < after.len() ==> #[trigger] after[k].len() <= max,
    ensures
        after.len() == before.len() + 1,
        after.last() == seq![e],
{
    let l = before.len() - 1;
    lemma_appended_prefix(before, after, max, seq![e]);
    let t = after.skip(l);
    assert(spec_flatten(t).len() == max + 1);
    if after.len() == before.len() {
        assert(t =~= seq![after[l]]);
        lemma_flatten_one(after[l]);
        assert(false);
    }
    assert(t.len() >= 2);
    lemma_flatten_split(t, 2);
    assert(t.take(2) =~= seq![after[l], after[l + 1]]);
    lemma_flatten_split(seq![after[l], after[l + 1]], 1);
    assert(seq![after[l], after[l + 1]].take(1) =~= seq![after[l]]);
    assert(seq![after[l], after[l + 1]].skip(1) =~= seq![after[l + 1]]);
    lemma_flatten_one(after[l]);
    lemma_flatten_one(after[l + 1]);
    assert(after[l].len() == max);
    assert(after[l + 1].len() > 0) by {
        if l + 1 < after.len() - 1 {
            assert(after[l + 1].len() == max);
        } else {
            assert(after.last() == after[l + 1]);
        }
    }
    assert(spec_flatten(t.skip(2)).len() == 0);
    if after.len() > l + 2 {
        assert(after[l + 1].len() == max);
        assert(false);
    }
    assert(after.last() == after[l + 1]);
    assert(after[l + 1].len() == 1);
    let f = spec_flatten(t);
    assert(f == before[l] + seq![e]);
    assert(f == after[l] + after[l + 1] + spec_flatten(t.skip(2)));
    assert(after[l + 1] =~= f.subrange(max as int, max as int + 1));
    assert(f.subrange(max as int, max as int + 1) =~= seq![e]);
}

/// A scan only learns: reading a record never forgets a visited row id or
/// a committed transaction.
pub proof fn lemma_step_grows(st: ScanView, e: EntryView, snapshot: u128)
    ensures
        st.visited.subset_of(spec_step(st, e, snapshot).0.visited),
        st.committed.subset_of(spec_step(st, e, snapshot).0.committed),
{
}

/// A scan emits each row id at most once, and never one it had already
/// visited when it started.
pub proof fn lemma_scan_ids_distinct(es: Seq<EntryView>, st: ScanView, snapshot: u128)
    ensures
        forall|i: int, j: int| 0 <= i < j < spec_scan_rows(es, st, snapshot).len()
            ==> #[trigger] spec_scan_rows(es, st, snapshot)[i].id != #[trigger] spec_scan_rows(es, st, snapshot)[j].id,
        forall|i: int| 0 <= i < spec_scan_rows(es, st, snapshot).len()
            ==> !st.visited.contains(#[trigger] spec_scan_rows(es, st, snapshot)[i].id),
    decreases es.len(),
{
    if es.len() > 0 {
        let (next, out) = spec_step(st, es[0], snapshot);
        let tail = spec_scan_rows(es.drop_first(), next, snapshot);
        lemma_scan_ids_distinct(es.drop_first(), next, snapshot);
        lemma_step_grows(st, es[0], snapshot);
        let rows = spec_scan_rows(es, st, snapshot);
        match out {
            Some(row) => {
                assert(rows == seq![row] + tail);
                assert(next.visited.contains(row.id));
                assert forall|i: int| 0 <= i < rows.len() implies !st.visited.contains(#[trigger] rows[i].id) by {
                    if i > 0 {
                        assert(rows[i] == tail[i - 1]);
                    }
                }
                assert forall|i: int, j: int| 0 <= i < j < rows.len() implies #[trigger] rows[i].id != #[trigger] rows[j].id by {
                    assert(rows[j] == tail[j - 1]);
                    if i > 0 {
                        assert(rows[i] == tail[i - 1]);
                    }
                }
            },
            None => {
                assert(rows == tail);
            },
        }
    }
}

/// Whether a row read at position `j` of `es` was written by a
/// transaction that a reader at `snapshot` sees as committed: one already
/// known committed, or one whose commit record comes before position `j`.
pub open spec fn spec_committed_at(es: Seq<EntryView>, committed: Set<u128>, snapshot: u128, j: int, tx: u128) -> bool {
    tx <= snapshot && (committed.contains(tx) || exists|k: int| 0 <= k < j && es[k] == EntryView::Commit(tx))
}

/// Row `r` stands in an update record of `es` whose transaction is
/// committed for a reader at `snapshot` at that point.
pub open spec fn spec_row_origin(es: Seq<EntryView>, committed: Set<u128>, snapshot: u128, r: RowView) -> bool {
    exists|j: int, tx: u128| 0 <= j < es.len() && es[j] == EntryView::Update(tx, r)
        && #[trigger] spec_committed_at(es, committed, snapshot, j, tx)
}

/// Every row a scan emits comes from an update record of a transaction at
/// or below the snapshot that is committed: either known committed when the
/// scan started (at first only the bootstrap transaction, id zero), or with
/// a commit record read before the update, that is written after it.
pub proof fn lemma_scan_rows_committed(es: Seq<EntryView>, st: ScanView, snapshot: u128)
    ensures
        forall|i: int| 0 <= i < spec_scan_rows(es, st, snapshot).len()
            ==> spec_row_origin(es, st.committed, snapshot, #[trigger] spec_scan_rows(es, st, snapshot)[i]),
    decreases es.len(),
{
    if es.len() > 0 {
        let (next, out) = spec_step(st, es[0], snapshot);
        let rest = es.drop_first();
        let tail = spec_scan_rows(rest, next, snapshot);
        lemma_scan_rows_committed(rest, next, snapshot);
        let rows = spec_scan_rows(es, st, snapshot);
        let off: int = if out is Some { 1 } else { 0 };
        assert(rows == match out {
            Some(row) => seq![row] + tail,
            None => tail,
        });
        assert forall|i: int| 0 <= i < rows.len() implies spec_row_origin(es, st.committed, snapshot, #[trigger] rows[i]) by {
            if out is Some && i == 0 {
                let tx = match es[0] {
                    EntryView::Update(t, _) => t,
                    _ => 0,
                };
                assert(es[0] == EntryView::Update(tx, rows[0]));
                assert(spec_committed_at(es, st.committed, snapshot, 0, tx));
                assert(spec_row_origin(es, st.committed, snapshot, rows[i]));
            } else {
                assert(rows[i] == tail[i - off]);
                assert(spec_row_origin(rest, next.committed, snapshot, tail[i - off]));
                let (j, tx) = choose|j: int, tx: u128|
                    0 <= j < rest.len() && rest[j] == EntryView::Update(tx, tail[i - off])
                    && #[trigger] spec_committed_at(rest, next.committed, snapshot, j, tx);
                assert(es[j + 1] == rest[j]);
                if next.committed.contains(tx) && !st.committed.contains(tx) {
                    assert(es[0] == EntryView::Commit(tx));
                    assert(spec_committed_at(es, st.committed, snapshot, j + 1, tx));
                } else if !next.committed.contains(tx) {
                    let k = choose|k: int| 0 <= k < j && rest[k] == EntryView::Commit(tx);
                    assert(es[k + 1] == rest[k]);
                    assert(spec_committed_at(es, st.committed, snapshot, j + 1, tx));
                }
                assert(spec_committed_at(es, st.committed, snapshot, j + 1, tx));
                assert(es[j + 1] == EntryView::Update(tx, rows[i]));
            }
        }
    }
}

/// The row id a record writes, if it writes one.
pub open spec fn spec_about(e: EntryView) -> Option<u128> {
    match e {
        EntryView::Update(_, r) => Some(r.id),
        EntryView::Delete(_, id) => Some(id),
        _ => None,
    }
}

/// The first record of `es` that writes row `id`: with `es` newest first,
/// the latest write of that row.
pub open spec fn spec_first_about(es: Seq<EntryView>, id: u128) -> Option<EntryView>
    decreases es.len(),
{
    if es.len() == 0 {
        None
    } else if spec_about(es[0]) == Some(id) {
        Some(es[0])
    } else {
        spec_first_about(es.drop_first(), id)
    }
}

/// The first `n` records of `es` are writes by transactions at or below
/// the snapshot that are known committed.
pub open spec fn spec_committed_writes(es: Seq<EntryView>, committed: Set<u128>, snapshot: u128, n: int) -> bool {
    forall|i: int| 0 <= i < n ==> match #[trigger] es[i] {
        EntryView::Update(tx, _) => tx <= snapshot && committed.contains(tx),
        EntryView::Delete(tx, _) => tx <= snapshot && committed.contains(tx),
        _ => false,
    }
}

/// Latest write wins: when a scan starts with committed writes, a row id
/// they write and the scan has not visited yet is emitted, with the columns
/// of its latest write, exactly when that write is an update; a delete
/// hides the id from the whole scan.
pub proof fn lemma_latest_write_wins(es: Seq<EntryView>, st: ScanView, snapshot: u128, n: int, id: u128)
    requires
        0 <= n <= es.len(),
        spec_committed_writes(es, st.committed, snapshot, n),
        !st.visited.contains(id),
        spec_first_about(es.take(n), id) is Some,
    ensures
        spec_first_about(es.take(n), id) matches Some(EntryView::Update(_, r)) ==> exists|i: int|
            0 <= i < spec_scan_rows(es, st, snapshot).len() && #[trigger] spec_scan_rows(es, st, snapshot)[i] == r,
        spec_first_about(es.take(n), id) matches Some(EntryView::Delete(_, _)) ==> forall|i: int|
            0 <= i < spec_scan_rows(es, st, snapshot).len() ==> (#[trigger] spec_scan_rows(es, st, snapshot)[i]).id != id,
    decreases n,
{
    let rows = spec_scan_rows(es, st, snapshot);
    let (next, out) = spec_step(st, es[0], snapshot);
    let rest = es.drop_first();
    let tail = spec_scan_rows(rest, next, snapshot);
    assert(es.take(n)[0] == es[0]);
    assert(es[0] == es.take(n)[0]);
    if spec_about(es[0]) == Some(id) {
        match es[0] {
            EntryView::Update(_, r) => {
                assert(rows == seq![r] + tail);
                assert(rows[0] == r);
            },
            EntryView::Delete(_, _) => {
                assert(rows == tail);
                lemma_scan_ids_distinct(rest, next, snapshot);
                assert(next.visited.contains(id));
            },
            _ => {},
        }
    } else {
        assert(es.take(n).drop_first() =~= rest.take(n - 1));
        assert(spec_first_about(es.take(n), id) == spec_first_about(rest.take(n - 1), id));
        assert(next.committed == st.committed);
        assert(!next.visited.contains(id));
        assert forall|i: int| 0 <= i < n - 1 implies match #[trigger] rest[i] {
            EntryView::Update(tx, _) => tx <= snapshot && next.committed.contains(tx),
            EntryView::Delete(tx, _) => tx <= snapshot && next.committed.contains(tx),
            _ => false,
        } by {
            assert(rest[i] == es[i + 1]);
        }
        lemma_latest_write_wins(rest, next, snapshot, n - 1, id);
        let off: int = if out is Some { 1 } else { 0 };
        assert(rows == match out {
            Some(row) => seq![row] + tail,
            None => tail,
        });
        if let Some(EntryView::Update(_, r)) = spec_first_about(es.take(n), id) {
            let i = choose|i: int| 0 <= i < tail.len() && #[trigger] tail[i] == r;
            assert(rows[i + off] == r);
        }
        if let Some(EntryView::Delete(_, _)) = spec_first_about(es.take(n), id) {
            assert forall|i: int| 0 <= i < rows.len() implies (#[trigger] rows[i]).id != id by {
                if out is Some && i == 0 {
                } else {
                    assert(rows[i] == tail[i - off]);
                }
            }
        }
    }
}

/// Rows written under the bootstrap transaction (id zero) are visible to
/// every reader: of the writes `w` (newest first) at the head of the log,
/// each row id's latest write decides what a scan shows — its columns after
/// an update, nothing after a delete.
pub proof fn lemma_bootstrap_writes_visible(w: Seq<EntryView>, older: Seq<EntryView>, snapshot: u128, id: u128)
    requires
        forall|i: int| 0 <= i < w.len() ==> (#[trigger] w[i] matches EntryView::Update(tx, _) && tx == 0)
            || (w[i] matches EntryView::Delete(tx, _) && tx == 0),
        spec_first_about(w, id) is Some,
    ensures
        spec_first_about(w, id) matches Some(EntryView::Update(_, r)) ==> exists|i: int|
            0 <= i < spec_scan_rows(w + older, spec_initial_scan(), snapshot).len()
            && #[trigger] spec_scan_rows(w + older, spec_initial_scan(), snapshot)[i] == r,
        spec_first_about(w, id) matches Some(EntryView::Delete(_, _)) ==> forall|i: int|
            0 <= i < spec_scan_rows(w + older, spec_initial_scan(), snapshot).len()
            ==> (#[trigger] spec_scan_rows(w + older, spec_initial_scan(), snapshot)[i]).id != id,
{
    let es = w + older;
    assert(es.take(w.len() as int) =~= w);
    assert forall|i: int| 0 <= i < w.len() implies match #[trigger] es[i] {
        EntryView::Update(tx, _) => tx <= snapshot && spec_initial_scan().committed.contains(tx),
        EntryView::Delete(tx, _) => tx <= snapshot && spec_initial_scan().committed.contains(tx),
        _ => false,
    } by {
        assert(es[i] == w[i]);
    }
    lemma_latest_write_wins(es, spec_initial_scan(), snapshot, w.len() as int, id);
}

/// Write, commit, scan: after transaction `tx` writes `w` (newest first)
/// and then commits, a reader at snapshot `tx` sees, for each row id that
/// `w` writes, the row of its latest write in `w` — or none after a delete.
pub proof fn lemma_commit_makes_writes_visible(tx: u128, w: Seq<EntryView>, older: Seq<EntryView>, id: u128)
    requires
        forall|i: int| 0 <= i < w.len() ==> (#[trigger] w[i] matches EntryView::Update(t, _) && t == tx)
            || (w[i] matches EntryView::Delete(t, _) && t == tx),
        spec_first_about(w, id) is Some,
    ensures
        spec_first_about(w, id) matches Some(EntryView::Update(_, r)) ==> exists|i: int|
            0 <= i < spec_scan_rows(seq![EntryView::Commit(tx)] + w + older, spec_initial_scan(), tx).len()
            && #[trigger] spec_scan_rows(seq![EntryView::Commit(tx)] + w + older, spec_initial_scan(), tx)[i] == r,
        spec_first_about(w, id) matches Some(EntryView::Delete(_, _)) ==> forall|i: int|
            0 <= i < spec_scan_rows(seq![EntryView::Commit(tx)] + w + older, spec_initial_scan(), tx).len()
            ==> (#[trigger] spec_scan_rows(seq![EntryView::Commit(tx)] + w + older, spec_initial_scan(), tx)[i]).id != id,
{
    let es = seq![EntryView::Commit(tx)] + w + older;
    let st = spec_step(spec_initial_scan(), EntryView::Commit(tx), tx).0;
    assert(es[0] == EntryView::Commit(tx));
    assert(es.drop_first() =~= w + older);
    assert(spec_scan_rows(es, spec_initial_scan(), tx) == spec_scan_rows(w + older, st, tx));
    let rest = w + older;
    assert(rest.take(w.len() as int) =~= w);
    assert forall|i: int| 0 <= i < w.len() implies match #[trigger] rest[i] {
        EntryView::Update(t, _) => t <= tx && st.committed.contains(t),
        EntryView::Delete(t, _) => t <= tx && st.committed.contains(t),
        _ => false,
    } by {
        assert(rest[i] == w[i]);
    }
    lemma_latest_write_wins(rest, st, tx, w.len() as int, id);
}

proof fn lemma_rev_concat(a: Seq<EntryView>, b: Seq<EntryView>)
    ensures
        spec_rev(a + b) == spec_rev(b) + spec_rev(a),
    decreases b.len(),
{
    if b.len() == 0 {
        assert(a + b =~= a);
        assert(spec_rev(b) + spec_rev(a) =~= spec_rev(a));
    } else {
        lemma_rev_concat(a, b.drop_last());
        assert((a + b).drop_last() =~= a + b.drop_last());
        assert((a + b).last() == b.last());
        assert(spec_rev(b) + spec_rev(a) =~= seq![b.last()] + (spec_rev(b.drop_last()) + spec_rev(a)));
    }
}

proof fn lemma_older_is_rev_flatten(segs: Seq<Seq<EntryView>>, k: int)
    requires
        0 <= k <= segs.len(),
    ensures
        spec_older(segs, k) == spec_rev(spec_flatten(segs.take(k))),
    decreases k,
{
    if k == 0 {
        assert(segs.take(0) =~= Seq::<Seq<EntryView>>::empty());
        assert(spec_rev(Seq::<EntryView>::empty()) == Seq::<EntryView>::empty());
    } else {
        lemma_older_is_rev_flatten(segs, k - 1);
        assert(segs.take(k).drop_last() =~= segs.take(k - 1));
        assert(segs.take(k).last() == segs[k - 1]);
        lemma_rev_concat(spec_flatten(segs.take(k - 1)), segs[k - 1]);
    }
}

/// A scan reads the log newest first: after an append, it reads the new
/// records, newest first, and then the log as it was before.
pub proof fn lemma_append_scan_order(before: Seq<Seq<EntryView>>, after: Seq<Seq<EntryView>>, max: nat, entries: Seq<EntryView>)
    requires
        spec_appended(before, after, max, entries),
    ensures
        spec_newest_first(after) == spec_rev(entries) + spec_newest_first(before),
{
    lemma_older_is_rev_flatten(after, after.len() as int);
    lemma_older_is_rev_flatten(before, before.len() as int);
    assert(after.take(after.len() as int) =~= after);
    assert(before.take(before.len() as int) =~= before);
    lemma_rev_concat(spec_flatten(before), entries);
}

/// The records `set_objects` writes for `rows` under transaction `tx`.
pub open spec fn spec_written(tx: u128, rows: Seq<RowView>) -> Seq<EntryView> {
    rows.map_values(|r: RowView| spec_normalize(tx, r))
}

proof fn lemma_written_newest_first(tx: u128, rows: Seq<RowView>)
    ensures
        forall|i: int| 0 <= i < spec_rev(spec_written(tx, rows)).len() ==>
            (#[trigger] spec_rev(spec_written(tx, rows))[i] matches EntryView::Update(t, _) && t == tx)
            || (spec_rev(spec_written(tx, rows))[i] matches EntryView::Delete(t, _) && t == tx),
{
    let w = spec_written(tx, rows);
    assert forall|i: int| 0 <= i < spec_rev(w).len() implies
        (#[trigger] spec_rev(w)[i] matches EntryView::Update(t, _) && t == tx)
        || (spec_rev(w)[i] matches EntryView::Delete(t, _) && t == tx) by {
        crate::compaction::lemma_rev_len(w);
        lemma_rev_index(w, i);
    }
}

/// After `set_objects(0, rows)` (the append from `before` to `after`), a
/// reader at any snapshot sees, for each row id among `rows`, the last of
/// those rows with that id if it has columns, and nothing for that id if the
/// last one is empty (a delete).
pub proof fn lemma_bootstrap_set_objects_visible(
    before: Seq<Seq<EntryView>>,
    after: Seq<Seq<EntryView>>,
    max: nat,
    rows: Seq<RowView>,
    snapshot: u128,
    id: u128,
)
    requires
        spec_appended(before, after, max, spec_written(0, rows)),
        spec_first_about(spec_rev(spec_written(0, rows)), id) is Some,
    ensures
        spec_first_about(spec_rev(spec_written(0, rows)), id) matches Some(EntryView::Update(_, r)) ==> exists|i: int|
            0 <= i < spec_visible_rows(after, snapshot).len() && #[trigger] spec_visible_rows(after, snapshot)[i] == r,
        spec_first_about(spec_rev(spec_written(0, rows)), id) matches Some(EntryView::Delete(_, _)) ==> forall|i: int|
            0 <= i < spec_visible_rows(after, snapshot).len() ==> (#[trigger] spec_visible_rows(after, snapshot)[i]).id != id,
{
    let w = spec_rev(spec_written(0, rows));
    lemma_append_scan_order(before, after, max, spec_written(0, rows));
    lemma_written_newest_first(0, rows);
    lemma_bootstrap_writes_visible(w, spec_newest_first(before), snapshot, id);
    let es = w + spec_newest_first(before);
    assert(spec_visible_rows(after, snapshot) == spec_scan_rows(es, spec_initial_scan(), snapshot));
    if let Some(EntryView::Update(_, r)) = spec_first_about(w, id) {
        let i = choose|i: int| 0 <= i < spec_scan_rows(es, spec_initial_scan(), snapshot).len()
            && #[trigger] spec_scan_rows(es, spec_initial_scan(), snapshot)[i] == r;
        assert(spec_visible_rows(after, snapshot)[i] == r);
    }
}

/// Write, commit, scan over the collection's operations: after
/// `set_objects(tx, rows)` (from `s0` to `s1`) and `commit(tx)` (from `s1`
/// to `s2`), a reader at snapshot `tx` sees, for each row id among `rows`,
/// the last of those rows with that id if it has columns, and nothing for
/// that id if the last one is a delete.
pub proof fn lemma_set_objects_commit_visible(
    s0: Seq<Seq<EntryView>>,
    s1: Seq<Seq<EntryView>>,
    s2: Seq<Seq<EntryView>>,
    max: nat,
    tx: u128,
    rows: Seq<RowView>,
    id: u128,
)
    requires
        spec_appended(s0, s1, max, spec_written(tx, rows)),
        spec_appended(s1, s2, max, seq![EntryView::Commit(tx)]),
        spec_first_about(spec_rev(spec_written(tx, rows)), id) is Some,
    ensures
        spec_first_about(spec_rev(spec_written(tx, rows)), id) matches Some(EntryView::Update(_, r)) ==> exists|i: int|
            0 <= i < spec_visible_rows(s2, tx).len() && #[trigger] spec_visible_rows(s2, tx)[i] == r,
        spec_first_about(spec_rev(spec_written(tx, rows)), id) matches Some(EntryView::Delete(_, _)) ==> forall|i: int|
            0 <= i < spec_visible_rows(s2, tx).len() ==> (#[trigger] spec_visible_rows(s2, tx)[i]).id != id,
{
    let w = spec_rev(spec_written(tx, rows));
    lemma_append_scan_order(s0, s1, max, spec_written(tx, rows));
    lemma_append_scan_order(s1, s2, max, seq![EntryView::Commit(tx)]);
    let c = seq![EntryView::Commit(tx)];
    assert(c.drop_last() =~= Seq::<EntryView>::empty());
    assert(spec_rev(Seq::<EntryView>::empty()) == Seq::<EntryView>::empty());
    assert(spec_rev(c) =~= c);
    assert(spec_newest_first(s2) =~= seq![EntryView::Commit(tx)] + w + spec_newest_first(s0));
    lemma_written_newest_first(tx, rows);
    lemma_commit_makes_writes_visible(tx, w, spec_newest_first(s0), id);
    let es = seq![EntryView::Commit(tx)] + w + spec_newest_first(s0);
    assert(spec_visible_rows(s2, tx) == spec_scan_rows(es, spec_initial_scan(), tx));
    if let Some(EntryView::Update(_, r)) = spec_first_about(w, id) {
        let i = choose|i: int| 0 <= i < spec_scan_rows(es, spec_initial_scan(), tx).len()
            && #[trigger] spec_scan_rows(es, spec_initial_scan(), tx)[i] == r;
        assert(spec_visible_rows(s2, tx)[i] == r);
    }
}

/// Row `r` stands in an update record of `es` by a transaction other than
/// `tx`, at or below the snapshot.
pub open spec fn spec_written_by_other(es: Seq<EntryView>, r: RowView, tx: u128, snapshot: u128) -> bool {
    exists|j: int| 0 <= j < es.len() && #[trigger] es[j] == EntryView::Update(spec_tx_of(es[j]), r)
        && spec_tx_of(es[j]) != tx && spec_tx_of(es[j]) <= snapshot
}

/// Uncommitted writes stay invisible: when the log holds no commit record
/// of transaction `tx` (not the bootstrap one), no row a scan from the start
/// emits comes from `tx`, and none from a transaction above the snapshot.
pub proof fn lemma_uncommitted_writes_invisible(es: Seq<EntryView>, snapshot: u128, tx: u128)
    requires
        tx != 0,
        forall|k: int| 0 <= k < es.len() ==> #[trigger] es[k] != EntryView::Commit(tx),
    ensures
        forall|i: int| 0 <= i < spec_scan_rows(es, spec_initial_scan(), snapshot).len() ==> spec_written_by_other(
            es,
            #[trigger] spec_scan_rows(es, spec_initial_scan(), snapshot)[i],
            tx,
            snapshot,
        ),
{
    let rows = spec_scan_rows(es, spec_initial_scan(), snapshot);
    lemma_scan_rows_committed(es, spec_initial_scan(), snapshot);
    assert forall|i: int| 0 <= i < rows.len() implies spec_written_by_other(es, #[trigger] rows[i], tx, snapshot) by {
        assert(spec_row_origin(es, spec_initial_scan().committed, snapshot, rows[i]));
        let (j, t) = choose|j: int, t: u128| 0 <= j < es.len() && es[j] == EntryView::Update(t, rows[i])
            && #[trigger] spec_committed_at(es, spec_initial_scan().committed, snapshot, j, t);
        if t == tx {
            if !spec_initial_scan().committed.contains(t) {
                let k = choose|k: int| 0 <= k < j && es[k] == EntryView::Commit(t);
                assert(es[k] != EntryView::Commit(tx));
            }
        }
        assert(es[j] == EntryView::Update(t, rows[i]));
    }
}

} // verus!
