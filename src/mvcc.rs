//! The snapshot model of a scan: how a walk over the log from newest to
//! oldest record decides which rows a reader at a snapshot sees.
use vstd::prelude::*;
use crate::log_entry::{EntryView, RowView};

verus! {

/// What a scan has learned so far: the row ids already emitted or shadowed
/// by a tombstone, and the transactions known to be committed.
pub struct ScanView {
    pub visited: Set<u128>,
    pub committed: Set<u128>,
}

/// Before any record is read only the bootstrap transaction (id zero) is
/// committed.
pub open spec fn spec_initial_scan() -> ScanView {
    ScanView { visited: Set::empty(), committed: Set::empty().insert(0) }
}

/// Reads one record: the new knowledge, and the row it emits, if any.
pub open spec fn spec_step(st: ScanView, e: EntryView, snapshot: u128) -> (ScanView, Option<RowView>) {
    match e {
        EntryView::Update(tx, row) => if tx <= snapshot && st.committed.contains(tx) && !st.visited.contains(row.id) {
            (ScanView { visited: st.visited.insert(row.id), committed: st.committed }, Some(row))
        } else {
            (st, None)
        },
        EntryView::Delete(tx, id) => if tx <= snapshot && st.committed.contains(tx) {
            (ScanView { visited: st.visited.insert(id), committed: st.committed }, None)
        } else {
            (st, None)
        },
        EntryView::Commit(tx) => if tx <= snapshot {
            (ScanView { visited: st.visited, committed: st.committed.insert(tx) }, None)
        } else {
            (st, None)
        },
        EntryView::Rollback(_) => (st, None),
    }
}

/// Rows emitted while reading `es` in order, starting from `st`.
pub open spec fn spec_scan_rows(es: Seq<EntryView>, st: ScanView, snapshot: u128) -> Seq<RowView>
    decreases es.len(),
{
    if es.len() == 0 {
        seq![]
    } else {
        let (next, out) = spec_step(st, es[0], snapshot);
        match out {
            Some(row) => seq![row] + spec_scan_rows(es.drop_first(), next, snapshot),
            None => spec_scan_rows(es.drop_first(), next, snapshot),
        }
    }
}

/// Knowledge after reading `es` in order, starting from `st`.
pub open spec fn spec_scan_state(es: Seq<EntryView>, st: ScanView, snapshot: u128) -> ScanView
    decreases es.len(),
{
    if es.len() == 0 {
        st
    } else {
        spec_scan_state(es.drop_first(), spec_step(st, es[0], snapshot).0, snapshot)
    }
}

/// Records of one segment, newest first.
pub open spec fn spec_rev(s: Seq<EntryView>) -> Seq<EntryView>
    decreases s.len(),
{
    if s.len() == 0 {
        seq![]
    } else {
        seq![s.last()] + spec_rev(s.drop_last())
    }
}

/// Records of segments `k-1` down to `0`, newest first.
pub open spec fn spec_older(segs: Seq<Seq<EntryView>>, k: int) -> Seq<EntryView>
    decreases k,
{
    if k <= 0 {
        seq![]
    } else {
        spec_rev(segs[k - 1]) + spec_older(segs, k - 1)
    }
}

/// Every record of the log, newest first: the order in which a scan reads.
pub open spec fn spec_newest_first(segs: Seq<Seq<EntryView>>) -> Seq<EntryView> {
    spec_older(segs, segs.len() as int)
}

/// Records a scan still has to read when it stands before record `pos` of
/// segment `seg` (the records below `pos` of that segment, then all older
/// segments).
pub open spec fn spec_pending(segs: Seq<Seq<EntryView>>, seg: int, pos: int) -> Seq<EntryView> {
    spec_rev(segs[seg].take(pos)) + spec_older(segs, seg)
}

/// Rows a reader at `snapshot` sees in a log with segments `segs`, in scan
/// order.
pub open spec fn spec_visible_rows(segs: Seq<Seq<EntryView>>, snapshot: u128) -> Seq<RowView> {
    spec_scan_rows(spec_newest_first(segs), spec_initial_scan(), snapshot)
}

pub proof fn lemma_pending_step(segs: Seq<Seq<EntryView>>, seg: int, pos: int)
    requires
        0 <= seg < segs.len(),
        0 < pos <= segs[seg].len(),
    ensures
        spec_pending(segs, seg, pos) == seq![segs[seg][pos - 1]] + spec_pending(segs, seg, pos - 1),
{
    let t = segs[seg].take(pos);
    assert(t.drop_last() =~= segs[seg].take(pos - 1));
    assert(spec_rev(t) == seq![t.last()] + spec_rev(t.drop_last()));
    assert(spec_pending(segs, seg, pos) =~= seq![segs[seg][pos - 1]] + spec_pending(segs, seg, pos - 1));
}

pub proof fn lemma_pending_next_segment(segs: Seq<Seq<EntryView>>, seg: int)
    requires
        0 < seg < segs.len(),
    ensures
        spec_pending(segs, seg, 0) == spec_pending(segs, seg - 1, segs[seg - 1].len() as int),
{
    assert(segs[seg].take(0) =~= Seq::<EntryView>::empty());
    assert(segs[seg - 1].take(segs[seg - 1].len() as int) =~= segs[seg - 1]);
    assert(spec_rev(Seq::<EntryView>::empty()) == Seq::<EntryView>::empty());
    assert(spec_pending(segs, seg, 0) =~= spec_older(segs, seg));
}

pub proof fn lemma_pending_start(segs: Seq<Seq<EntryView>>)
    requires
        segs.len() > 0,
    ensures
        spec_pending(segs, segs.len() - 1, segs[segs.len() - 1].len() as int) == spec_newest_first(segs),
{
    let k = segs.len() - 1;
    assert(segs[k].take(segs[k].len() as int) =~= segs[k]);
}

pub proof fn lemma_pending_end(segs: Seq<Seq<EntryView>>)
    requires
        segs.len() > 0,
    ensures
        spec_pending(segs, 0, 0).len() == 0,
{
    assert(segs[0].take(0) =~= Seq::<EntryView>::empty());
    assert(spec_rev(Seq::<EntryView>::empty()) == Seq::<EntryView>::empty());
}

} // verus!
