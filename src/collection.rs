//! A collection: one table, held as its segments of log records. Writes
//! append to the last segment and open a new one when it is full; reads
//! walk the log from the newest record to the oldest.
use vstd::prelude::*;
use std::collections::BTreeSet;
use crate::entry_fields::EntryFields;
use crate::errors::{CompactionError, DBResult, DatabaseError, SchemaError, StorageError};
use crate::compaction::{compress_log_files, save_compacted_entries, spec_pair_newest_first, spec_rewrite, spec_survivors, spec_newest_commit, lemma_rewrite_len};
use crate::field::{FieldType, FieldValue, spec_kind};
use crate::log_entry::{EntityEntry, EntryView, LogEntry, Row, RowView, TransactionEntry};
use crate::log_file::{LogFile, spec_entries};
use crate::mvcc::{
    ScanView, spec_initial_scan, spec_pending, spec_scan_rows, spec_step, spec_visible_rows,
    lemma_pending_end, lemma_pending_next_segment, lemma_pending_start, lemma_pending_step,
};
use crate::operators::DBOperator;
use crate::statistics::CollectionStatistics;

verus! {

broadcast use vstd::std_specs::btree::group_btree_axioms;

/// All records of the segments, oldest first.
pub open spec fn spec_flatten(segs: Seq<Seq<EntryView>>) -> Seq<EntryView>
    decreases segs.len(),
{
    if segs.len() == 0 {
        seq![]
    } else {
        spec_flatten(segs.drop_last()) + segs.last()
    }
}

proof fn lemma_flatten_push_last(segs: Seq<Seq<EntryView>>, e: EntryView)
    requires
        segs.len() > 0,
    ensures
        spec_flatten(segs.update(segs.len() - 1, segs.last().push(e))) == spec_flatten(segs).push(e),
{
    let u = segs.update(segs.len() - 1, segs.last().push(e));
    assert(u.drop_last() =~= segs.drop_last());
    assert(spec_flatten(u) == spec_flatten(u.drop_last()) + u.last());
    assert(spec_flatten(segs) == spec_flatten(segs.drop_last()) + segs.last());
    assert(spec_flatten(u) =~= spec_flatten(segs).push(e));
}

/// Every segment but the last holds exactly `max` records.
pub open spec fn spec_full_prefix(segs: Seq<Seq<EntryView>>, max: nat) -> bool {
    forall|k: int| 0 <= k < segs.len() - 1 ==> #[trigger] segs[k].len() == max
}

/// The record a row write becomes: a delete for a row without columns, an
/// update otherwise.
pub open spec fn spec_normalize(tx: u128, r: RowView) -> EntryView {
    if r.fields.len() == 0 {
        EntryView::Delete(tx, r.id)
    } else {
        EntryView::Update(tx, r)
    }
}

/// Column kinds of a row.
pub open spec fn spec_kinds(fields: Seq<FieldValue>) -> Seq<FieldType> {
    fields.map_values(|v: FieldValue| spec_kind(v))
}

/// The largest transaction id: a snapshot that sees every committed write.
pub const MAX_TRANSACTION: u128 = 0xffff_ffff_ffff_ffff_ffff_ffff_ffff_ffff;

/// The row whose shape incoming rows must keep: the first row a scan at the
/// largest snapshot sees, if any.
pub open spec fn spec_shape_sample(segs: Seq<Seq<EntryView>>) -> Option<RowView> {
    let rows = spec_visible_rows(segs, MAX_TRANSACTION);
    if rows.len() == 0 {
        None
    } else {
        Some(rows[0])
    }
}

/// Whether writing `rows` breaks the shape of the stored rows.
pub open spec fn spec_shape_conflict(segs: Seq<Seq<EntryView>>, rows: Seq<RowView>) -> bool {
    &&& spec_shape_sample(segs) is Some
    &&& exists|i: int| 0 <= i < rows.len() && #[trigger] spec_row_conflicts(spec_shape_sample(segs).unwrap(), rows[i])
}

/// Row `r` has columns, and their kinds differ from those of `sample`.
pub open spec fn spec_row_conflicts(sample: RowView, r: RowView) -> bool {
    r.fields.len() > 0 && spec_kinds(r.fields) != spec_kinds(sample.fields)
}

/// A counter after adding `n`, stopping at the largest `usize`.
pub open spec fn spec_count_up(total: int, n: int) -> int {
    if total + n <= usize::MAX {
        total + n
    } else {
        usize::MAX as int
    }
}

/// No segment holds more than `max` records.
pub open spec fn spec_within_capacity(segs: Seq<Seq<EntryView>>, max: nat) -> bool {
    forall|k: int| 0 <= k < segs.len() ==> (#[trigger] segs[k]).len() <= max
}

/// How appending `entries` changes the segments: the records land at the end
/// of the log in order; older segments stay as they were; a segment is opened
/// only when the last one is full, and every segment left behind is full.
pub open spec fn spec_appended(before: Seq<Seq<EntryView>>, after: Seq<Seq<EntryView>>, max: nat, entries: Seq<EntryView>) -> bool {
    let l = before.len() - 1;
    &&& spec_flatten(after) == spec_flatten(before) + entries
    &&& after.len() >= before.len()
    &&& forall|k: int| 0 <= k < l ==> #[trigger] after[k] == before[k]
    &&& after[l].len() >= before[l].len()
    &&& before[l].len() + entries.len() <= max ==> after.len() == before.len()
    &&& forall|k: int| l <= k < after.len() - 1 ==> #[trigger] after[k].len() == max
    &&& after.len() > before.len() ==> after.last().len() > 0
}

/// One table.
pub struct Collection {
    name: String,
    segments: Vec<LogFile>,
    max_entries: usize,
    pub statistics: CollectionStatistics,
}

impl Collection {
    /// Records of each segment, oldest segment first.
    pub closed spec fn segs(&self) -> Seq<Seq<EntryView>> {
        self.segments@.map_values(|s: LogFile| spec_entries(s.entries@))
    }

    /// Records a segment may hold.
    pub closed spec fn max(&self) -> nat {
        self.max_entries as nat
    }

    pub closed spec fn spec_name(&self) -> Seq<char> {
        self.name@
    }

    /// The approximate number of records written so far.
    pub closed spec fn total_entries(&self) -> int {
        self.statistics.approximate_total_entries as int
    }

    /// A well-formed collection has a segment, room for at least one record
    /// per segment, and no segment over capacity.
    pub proof fn lemma_capacity(&self)
        requires
            self.wf(),
        ensures
            self.segs().len() >= 1,
            self.max() >= 1,
            spec_within_capacity(self.segs(), self.max()),
    {
    }

    /// At least one segment, numbered from zero, none over capacity.
    pub closed spec fn wf(&self) -> bool {
        &&& self.segments@.len() >= 1
        &&& self.max_entries >= 1
        &&& forall|k: int| 0 <= k < self.segments@.len() ==> (#[trigger] self.segments@[k]).index == k
        &&& forall|k: int| 0 <= k < self.segments@.len() ==> (#[trigger] self.segments@[k]).entries@.len() <= self.max_entries
    }

    /// An empty collection: one empty segment.
    pub fn new(name: String, max_entries: usize) -> (r: Collection)
        requires
            max_entries >= 1,
        ensures
            r.wf(),
            r.segs() == seq![Seq::<EntryView>::empty()],
            r.max() == max_entries,
            r.spec_name() == name@,
    {
        let mut segments: Vec<LogFile> = Vec::new();
        segments.push(LogFile::new(0));
        let r = Collection { name, segments, max_entries, statistics: CollectionStatistics::new() };
        assert(spec_entries(r.segments@[0].entries@) =~= Seq::<EntryView>::empty());
        assert(r.segs() =~= seq![Seq::<EntryView>::empty()]);
        r
    }

    /// A collection over segments loaded from storage. Fails with an
    /// inconsistency when there is no segment, when segment `k` is not
    /// numbered `k`, or when one holds more than `max_entries` records.
    pub fn from_segments(name: String, max_entries: usize, segments: Vec<LogFile>) -> (r: Result<Collection, StorageError>)
        requires
            max_entries >= 1,
        ensures
            r is Ok <==> segments@.len() >= 1
                && (forall|k: int| 0 <= k < segments@.len() ==> (#[trigger] segments@[k]).index == k
                    && segments@[k].entries@.len() <= max_entries),
            r is Ok ==> r.unwrap().wf() && r.unwrap().max() == max_entries
                && r.unwrap().segs() == segments@.map_values(|s: LogFile| spec_entries(s.entries@)),
    {
        if segments.len() == 0 {
            return Err(StorageError::Inconsistency());
        }
        let mut k: usize = 0;
        while k < segments.len()
            invariant
                0 <= k <= segments@.len(),
                forall|j: int| 0 <= j < k ==> (#[trigger] segments@[j]).index == j
                    && segments@[j].entries@.len() <= max_entries,
            decreases segments@.len() - k,
        {
            if segments[k].index != k || segments[k].entries.len() > max_entries {
                return Err(StorageError::Inconsistency());
            }
            k = k + 1;
        }
        Ok(Collection { name, segments, max_entries, statistics: CollectionStatistics::new() })
    }

    pub fn name(&self) -> (r: &str)
        ensures
            r@ == self.spec_name(),
    {
        self.name.as_str()
    }

    pub fn max_entries(&self) -> (r: usize)
        ensures
            r == self.max(),
    {
        self.max_entries
    }

    /// Index of the last segment, the one open for appends.
    pub fn last_segment_index(&self) -> (r: usize)
        requires
            self.wf(),
        ensures
            r == self.segs().len() - 1,
    {
        self.segments.len() - 1
    }

    /// Segment `index`.
    pub fn get_file(&self, index: usize) -> (r: Option<&LogFile>)
        ensures
            r is Some <==> index < self.segs().len(),
            r is Some ==> spec_entries(r.unwrap().entries@) == self.segs()[index as int]
                && (self.wf() ==> r.unwrap().index == index),
    {
        if index < self.segments.len() {
            Some(&self.segments[index])
        } else {
            None
        }
    }

    /// Appends records at the end of the log: the last segment is filled up
    /// to `max_entries` records, then new segments are opened, each filled
    /// before the next. Returns the number of records written.
    pub fn append_entries(&mut self, entries: Vec<LogEntry>) -> (r: usize)
        requires
            old(self).wf(),
        ensures
            final(self).wf(),
            r == entries@.len(),
            final(self).max() == old(self).max(),
            final(self).spec_name() == old(self).spec_name(),
            spec_appended(old(self).segs(), final(self).segs(), old(self).max(), spec_entries(entries@)),
            spec_within_capacity(final(self).segs(), final(self).max()),
            final(self).total_entries() == spec_count_up(old(self).total_entries(), entries@.len() as int),
            spec_full_prefix(old(self).segs(), old(self).max()) ==> spec_full_prefix(final(self).segs(), final(self).max()),
    {
        let ghost old_segs = self.segs();
        assert(old_segs.len() >= 1);
        let n = entries.len();
        let mut i: usize = 0;
        while i < n
            invariant
                self.wf(),
                n == entries@.len(),
                0 <= i <= n,
                self.max() == old(self).max(),
                self.name == old(self).name,
                spec_flatten(self.segs()) == spec_flatten(old_segs) + spec_entries(entries@.take(i as int)),
                self.segs().len() >= old_segs.len(),
                forall|k: int| 0 <= k < old_segs.len() - 1 ==> #[trigger] self.segs()[k] == old_segs[k],
                self.segs()[old_segs.len() - 1].len() >= old_segs[old_segs.len() - 1].len(),
                old_segs[old_segs.len() - 1].len() + i <= self.max() ==> self.segs().len() == old_segs.len(),
                forall|k: int| old_segs.len() - 1 <= k < self.segs().len() - 1
                    ==> #[trigger] self.segs()[k].len() == self.max(),
                self.segs().len() > old_segs.len() ==> self.segs().last().len() > 0,
                old_segs == old(self).segs(),
                old_segs.len() >= 1,
                self.statistics == old(self).statistics,
                self.segs().len() == old_segs.len() ==> self.segs()[old_segs.len() - 1].len()
                    == old_segs[old_segs.len() - 1].len() + i,
            decreases n - i,
        {
            let last = self.segments.len() - 1;
            let ghost start = self.segs();
            let ghost pushed = self.segments[last as int].entries@.len() >= self.max_entries;
            if self.segments[last].entries.len() >= self.max_entries {
                proof {
                    assert(self.segs()[last as int].len() == self.max());
                }
                let ghost before = self.segs();
                let fresh = LogFile::new(last + 1);
                assert(spec_entries(fresh.entries@) =~= Seq::<EntryView>::empty());
                self.segments.push(fresh);
                proof {
                    assert(self.segs() =~= before.push(Seq::<EntryView>::empty()));
                    assert(self.segs().drop_last() =~= before);
                    assert(spec_flatten(self.segs()) =~= spec_flatten(before));
                }
            }
            let ghost before = self.segs();
            let ghost before_vec = self.segments@;
            let mut seg = self.segments.pop().unwrap();
            let ghost seg_before = seg.entries@;
            let e = entries[i].clone();
            seg.entries.push(e);
            assert(spec_entries(seg.entries@) =~= spec_entries(seg_before).push(entries@[i as int]@));
            self.segments.push(seg);
            proof {
                let k = before.len() - 1;
                assert(self.segments@ =~= before_vec.update(k, seg));
                assert(self.segs() =~= before.update(k, before[k].push(entries@[i as int]@)));
                lemma_flatten_push_last(before, entries@[i as int]@);
                assert(spec_entries(entries@.take(i + 1)) =~= spec_entries(entries@.take(i as int)).push(entries@[i as int]@));
                assert(spec_flatten(self.segs()) =~= spec_flatten(old_segs) + spec_entries(entries@.take(i + 1)));
                assert forall|j: int| 0 <= j < k implies #[trigger] self.segs()[j] == before[j] by {}
                assert(self.segs()[k].len() == before[k].len() + 1);
                if pushed {
                    assert(before =~= start.push(Seq::<EntryView>::empty()));
                    assert(start[start.len() - 1].len() == self.max());
                    assert forall|j: int| 0 <= j < start.len() implies #[trigger] before[j] == start[j] by {}
                } else {
                    assert(before == start);
                }
                assert forall|j: int| old_segs.len() - 1 <= j < self.segs().len() - 1
                    implies #[trigger] self.segs()[j].len() == self.max() by {
                    assert(self.segs().len() == before.len());
                    assert(j < k);
                    assert(self.segs()[j] == before.update(k, before[k].push(entries@[i as int]@))[j]);
                    assert(self.segs()[j] == before[j]);
                    if j < start.len() {
                        assert(before[j] == start[j]);
                    }
                }
                let l = old_segs.len() - 1;
                if l < k {
                    assert(self.segs()[l] == before.update(k, before[k].push(entries@[i as int]@))[l]);
                    assert(self.segs()[l] == before[l]);
                    assert(before[l] == start[l]);
                }
            }
            i = i + 1;
        }
        assert(entries@.take(n as int) =~= entries@);
        proof {
            let f = self.segs();
            if spec_full_prefix(old_segs, old(self).max()) {
                assert forall|k: int| 0 <= k < f.len() - 1 implies #[trigger] f[k].len() == self.max() by {
                    if k < old_segs.len() - 1 {
                        assert(f[k] == old_segs[k]);
                    }
                }
            }
        }
        if n <= usize::MAX - self.statistics.approximate_total_entries {
            self.statistics.approximate_total_entries = self.statistics.approximate_total_entries + n;
        } else {
            self.statistics.approximate_total_entries = usize::MAX;
        }
        n
    }

    /// A scan of this collection at snapshot `transaction_id`.
    pub fn table_scan(&self, transaction_id: u128) -> (r: TableScan<'_>)
        requires
            self.wf(),
        ensures
            r.inv(),
            r.rest() == spec_visible_rows(self.segs(), transaction_id),
    {
        TableScan::new(self, transaction_id)
    }

    /// Writes rows under transaction `transaction_id`: a row without columns
    /// deletes its id, any other row sets it. When the collection already
    /// shows a row, every written row with columns must have the same column
    /// kinds as that row; otherwise nothing is written and the error names an
    /// offending row. Returns the number of records written.
    pub fn set_objects(&mut self, transaction_id: u128, rows: Vec<Row>) -> (r: DBResult<usize>)
        requires
            old(self).wf(),
        ensures
            final(self).wf(),
            final(self).max() == old(self).max(),
            final(self).spec_name() == old(self).spec_name(),
            r is Err <==> spec_shape_conflict(old(self).segs(), rows@.map_values(|x: Row| x@)),
            r is Err ==> final(self).segs() == old(self).segs() && final(self).total_entries() == old(self).total_entries(),
            r matches Err(e) ==> (e matches DatabaseError::Storage(StorageError::Schema(_, id))
                && exists|i: int| 0 <= i < rows@.len() && rows@[i].id == id
                    && spec_row_conflicts(spec_shape_sample(old(self).segs()).unwrap(), #[trigger] rows@[i]@)
                    && forall|j: int| 0 <= j < i ==> !spec_row_conflicts(spec_shape_sample(old(self).segs()).unwrap(), #[trigger] rows@[j]@)),
            r matches Ok(n) ==> final(self).total_entries() == spec_count_up(old(self).total_entries(), n as int),
            spec_within_capacity(final(self).segs(), final(self).max()),
            r matches Ok(n) ==> n == rows@.len() && spec_appended(old(self).segs(), final(self).segs(), old(self).max(),
                rows@.map_values(|x: Row| spec_normalize(transaction_id, x@))),
            r is Ok && spec_full_prefix(old(self).segs(), old(self).max()) ==> spec_full_prefix(final(self).segs(), final(self).max()),
    {
        let ghost views = rows@.map_values(|x: Row| x@);
        let sample = {
            let mut scan = TableScan::new(self, MAX_TRANSACTION);
            scan.next_row()
        };
        if let Some(sample) = &sample {
            let mut i: usize = 0;
            while i < rows.len()
                invariant
                    self.wf(),
                    self.segs() == old(self).segs(),
                    0 <= i <= rows@.len(),
                    views == rows@.map_values(|x: Row| x@),
                    spec_shape_sample(self.segs()) == Some(sample@),
                    forall|j: int| 0 <= j < i && rows@[j]@.fields.len() > 0
                        ==> #[trigger] spec_kinds(views[j].fields) == spec_kinds(sample@.fields),
                decreases rows@.len() - i,
            {
                if !rows[i].fields.is_empty() && !same_kinds(&rows[i].fields, &sample.fields) {
                    assert(spec_kinds(views[i as int].fields) != spec_kinds(sample@.fields));
                    assert(spec_row_conflicts(sample@, rows@[i as int]@));
                    assert(views.len() == rows@.len());
                    assert(spec_row_conflicts(sample@, views[i as int]));
                    assert(spec_shape_sample(old(self).segs()) == Some(sample@));
                    assert(spec_row_conflicts(spec_shape_sample(old(self).segs()).unwrap(), views[i as int]));
                    assert(spec_shape_conflict(old(self).segs(), views));
                    assert forall|j: int| 0 <= j < i implies !spec_row_conflicts(sample@, #[trigger] rows@[j]@) by {
                        assert(views[j] == rows@[j]@);
                        if rows@[j]@.fields.len() > 0 {
                            assert(spec_kinds(views[j].fields) == spec_kinds(sample@.fields));
                        }
                    }
                    return Err(DatabaseError::Storage(StorageError::Schema(
                        SchemaError::from_str("row shape differs from the stored rows"),
                        rows[i].id,
                    )));
                }
                i = i + 1;
            }
        }
        let mut entries: Vec<LogEntry> = Vec::new();
        let mut i: usize = 0;
        while i < rows.len()
            invariant
                0 <= i <= rows@.len(),
                spec_entries(entries@) == rows@.take(i as int).map_values(|x: Row| spec_normalize(transaction_id, x@)),
            decreases rows@.len() - i,
        {
            let row = &rows[i];
            let e = if row.fields.is_empty() {
                LogEntry::delete(transaction_id, row.id)
            } else {
                LogEntry::update(transaction_id, row.id, row.fields.clone())
            };
            assert(e@ == spec_normalize(transaction_id, rows@[i as int]@));
            let ghost before = entries@;
            entries.push(e);
            assert(spec_entries(entries@) =~= spec_entries(before).push(e@));
            assert(rows@.take(i + 1).map_values(|x: Row| spec_normalize(transaction_id, x@))
                =~= rows@.take(i as int).map_values(|x: Row| spec_normalize(transaction_id, x@)).push(spec_normalize(transaction_id, rows@[i as int]@)));
            assert(spec_entries(entries@) =~= rows@.take(i + 1).map_values(|x: Row| spec_normalize(transaction_id, x@)));
            i = i + 1;
        }
        assert(rows@.take(rows@.len() as int) =~= rows@);
        let n = self.append_entries(entries);
        Ok(n)
    }

    /// Writes one row under transaction `transaction_id`; see `set_objects`.
    pub fn set_object(&mut self, transaction_id: u128, object_id: u128, fields: EntryFields) -> (r: DBResult<usize>)
        requires
            old(self).wf(),
        ensures
            final(self).wf(),
            r is Err <==> spec_shape_conflict(old(self).segs(), seq![RowView { id: object_id, fields: fields@ }]),
            r is Err ==> final(self).segs() == old(self).segs(),
            r matches Ok(n) ==> n == 1 && spec_appended(old(self).segs(), final(self).segs(), old(self).max(),
                seq![spec_normalize(transaction_id, RowView { id: object_id, fields: fields@ })]),
            r is Err ==> final(self).total_entries() == old(self).total_entries(),
            r is Ok ==> final(self).total_entries() == spec_count_up(old(self).total_entries(), 1),
            spec_within_capacity(final(self).segs(), final(self).max()),
    {
        let ghost v = RowView { id: object_id, fields: fields@ };
        let mut rows: Vec<Row> = Vec::new();
        rows.push(Row { id: object_id, fields });
        proof {
            assert(rows@.map_values(|x: Row| x@) =~= seq![v]);
            assert(rows@.map_values(|x: Row| spec_normalize(transaction_id, x@)) =~= seq![spec_normalize(transaction_id, v)]);
        }
        self.set_objects(transaction_id, rows)
    }

    /// Marks transaction `transaction_id` committed: appends its commit record.
    pub fn commit(&mut self, transaction_id: u128)
        requires
            old(self).wf(),
        ensures
            final(self).wf(),
            final(self).max() == old(self).max(),
            final(self).spec_name() == old(self).spec_name(),
            spec_appended(old(self).segs(), final(self).segs(), old(self).max(), seq![EntryView::Commit(transaction_id)]),
            spec_within_capacity(final(self).segs(), final(self).max()),
            final(self).total_entries() == spec_count_up(old(self).total_entries(), 1),
            spec_full_prefix(old(self).segs(), old(self).max()) ==> spec_full_prefix(final(self).segs(), final(self).max()),
    {
        let mut entries: Vec<LogEntry> = Vec::new();
        entries.push(LogEntry::commit(transaction_id));
        assert(spec_entries(entries@) =~= seq![EntryView::Commit(transaction_id)]);
        self.append_entries(entries);
    }

    /// Marks transaction `transaction_id` rolled back: appends its rollback
    /// record.
    pub fn rollback(&mut self, transaction_id: u128)
        requires
            old(self).wf(),
        ensures
            final(self).wf(),
            final(self).max() == old(self).max(),
            final(self).spec_name() == old(self).spec_name(),
            spec_appended(old(self).segs(), final(self).segs(), old(self).max(), seq![EntryView::Rollback(transaction_id)]),
            spec_within_capacity(final(self).segs(), final(self).max()),
            final(self).total_entries() == spec_count_up(old(self).total_entries(), 1),
            spec_full_prefix(old(self).segs(), old(self).max()) ==> spec_full_prefix(final(self).segs(), final(self).max()),
    {
        let mut entries: Vec<LogEntry> = Vec::new();
        entries.push(LogEntry::rollback(transaction_id));
        assert(spec_entries(entries@) =~= seq![EntryView::Rollback(transaction_id)]);
        self.append_entries(entries);
    }

    /// Compacts segments `older_index` and `newer_index`, which must be
    /// adjacent: both are replaced by the surviving state of their rows (see
    /// `compress_log_files`), at most `max_entries` records each, written as
    /// updates under the newest committed transaction id. Fails, changing
    /// nothing, when the indexes are not adjacent segments or when the
    /// survivors need more than two segments.
    pub fn compact_files(&mut self, older_index: usize, newer_index: usize) -> (r: Result<(), CompactionError>)
        requires
            old(self).wf(),
        ensures
            final(self).wf(),
            final(self).max() == old(self).max(),
            final(self).spec_name() == old(self).spec_name(),
            r is Err ==> final(self).segs() == old(self).segs(),
            final(self).total_entries() == old(self).total_entries(),
            spec_within_capacity(final(self).segs(), final(self).max()),
            r is Ok ==> ({
                let segs = old(self).segs();
                let es = spec_pair_newest_first(segs[older_index as int], segs[newer_index as int]);
                let sv = spec_survivors(es, Set::empty(), Set::empty().insert(0));
                let tx = spec_newest_commit(es, 0);
                let cut = if sv.len() < old(self).max() { sv.len() as int } else { old(self).max() as int };
                &&& newer_index == older_index + 1 && newer_index < segs.len()
                &&& final(self).segs() == segs.update(older_index as int, spec_rewrite(sv.subrange(0, cut), tx))
                    .update(newer_index as int, spec_rewrite(sv.subrange(cut, sv.len() as int), tx))
            }),
            old(self).wf() && older_index < usize::MAX && newer_index == older_index + 1
                && newer_index < old(self).segs().len()
                && old(self).segs()[older_index as int].len() + old(self).segs()[newer_index as int].len() <= usize::MAX
                ==> (r is Err <==> spec_survivors(
                    spec_pair_newest_first(old(self).segs()[older_index as int], old(self).segs()[newer_index as int]),
                    Set::empty(), Set::empty().insert(0)).len() > 2 * old(self).max()),
    {
        if older_index == usize::MAX || newer_index != older_index + 1 || newer_index >= self.segments.len() {
            return Err(CompactionError::from_str("compaction needs two adjacent segments"));
        }
        let older = &self.segments[older_index];
        let newer = &self.segments[newer_index];
        assert(older.entries@.len() <= self.max_entries && newer.entries@.len() <= self.max_entries);
        if older.entries.len() > usize::MAX - newer.entries.len() {
            return Err(CompactionError::from_str("segments too large"));
        }
        let (survivors, tx) = compress_log_files(older, newer);
        let (a, b) = save_compacted_entries(&survivors, self.max_entries, tx)?;
        let ghost sv = crate::compaction::spec_survivor_views(survivors@);
        proof {
            let cut = if sv.len() < self.max_entries { sv.len() as int } else { self.max_entries as int };
            lemma_rewrite_len(sv.subrange(0, cut), tx);
            lemma_rewrite_len(sv.subrange(cut, sv.len() as int), tx);
        }
        let ghost before = self.segments@;
        self.segments.set(older_index, LogFile { entries: a, index: older_index });
        self.segments.set(newer_index, LogFile { entries: b, index: newer_index });
        proof {
            assert(self.segs() =~= old(self).segs().update(older_index as int, spec_entries(self.segments@[older_index as int].entries@))
                .update(newer_index as int, spec_entries(self.segments@[newer_index as int].entries@)));
        }
        Ok(())
    }
}

/// Whether two rows have the same column kinds.
pub fn same_kinds(a: &EntryFields, b: &EntryFields) -> (r: bool)
    ensures
        r == (spec_kinds(a@) == spec_kinds(b@)),
{
    let n = a.len();
    if n != b.len() {
        assert(spec_kinds(a@).len() != spec_kinds(b@).len());
        return false;
    }
    let mut i: usize = 0;
    while i < n
        invariant
            n == a@.len(),
            n == b@.len(),
            0 <= i <= n,
            forall|j: int| 0 <= j < i ==> spec_kind(#[trigger] a@[j]) == spec_kind(b@[j]),
        decreases n - i,
    {
        if a.column_type(i) != b.column_type(i) {
            assert(spec_kinds(a@)[i as int] != spec_kinds(b@)[i as int]);
            return false;
        }
        i = i + 1;
    }
    assert(spec_kinds(a@) =~= spec_kinds(b@));
    true
}

/// A snapshot-isolated scan of a collection: rows newest first, each id at
/// most once, each row the latest committed version visible at the snapshot.
pub struct TableScan<'a> {
    collection: &'a Collection,
    seg: usize,
    pos: usize,
    visited: BTreeSet<u128>,
    committed: BTreeSet<u128>,
    snapshot: u128,
}

impl<'a> TableScan<'a> {
    /// What the scan has learned so far.
    pub closed spec fn state(&self) -> ScanView {
        ScanView { visited: self.visited@, committed: self.committed@ }
    }

    /// Records still to read, newest first.
    pub closed spec fn pending(&self) -> Seq<EntryView> {
        spec_pending(self.collection.segs(), self.seg as int, self.pos as int)
    }

    /// The collection scanned.
    pub closed spec fn source(&self) -> Collection {
        *self.collection
    }

    pub closed spec fn snapshot_id(&self) -> u128 {
        self.snapshot
    }

    pub closed spec fn wf(&self) -> bool {
        &&& self.collection.wf()
        &&& self.seg < self.collection.segs().len()
        &&& self.pos <= self.collection.segs()[self.seg as int].len()
    }

    /// A scan at snapshot `transaction_id`: it will yield exactly the rows
    /// visible at that snapshot.
    pub fn new(collection: &'a Collection, transaction_id: u128) -> (r: TableScan<'a>)
        requires
            collection.wf(),
        ensures
            r.wf(),
            r.state() == spec_initial_scan(),
            r.pending() == crate::mvcc::spec_newest_first(collection.segs()),
            r.snapshot_id() == transaction_id,
            spec_scan_rows(r.pending(), r.state(), r.snapshot_id()) == spec_visible_rows(collection.segs(), transaction_id),
    {
        let mut committed: BTreeSet<u128> = BTreeSet::new();
        committed.insert(0);
        let seg = collection.segments.len() - 1;
        let pos = collection.segments[seg].entries.len();
        let r = TableScan { collection, seg, pos, visited: BTreeSet::new(), committed, snapshot: transaction_id };
        proof {
            lemma_pending_start(collection.segs());
            assert(r.state().visited =~= spec_initial_scan().visited);
            assert(r.state().committed =~= spec_initial_scan().committed);
        }
        r
    }

    /// The next visible row, or `None` once the log is read.
    pub fn next_row(&mut self) -> (r: Option<Row>)
        requires
            old(self).wf(),
        ensures
            final(self).wf(),
            final(self).source() == old(self).source(),
            final(self).snapshot_id() == old(self).snapshot_id(),
            ({
                let before = spec_scan_rows(old(self).pending(), old(self).state(), old(self).snapshot_id());
                let after = spec_scan_rows(final(self).pending(), final(self).state(), final(self).snapshot_id());
                match r {
                    Some(row) => before.len() > 0 && row@ == before[0] && after == before.drop_first(),
                    None => before.len() == 0 && after.len() == 0,
                }
            }),
    {
        let ghost goal = spec_scan_rows(self.pending(), self.state(), self.snapshot);
        loop
            invariant
                self.wf(),
                self.collection == old(self).collection,
                self.snapshot == old(self).snapshot,
                spec_scan_rows(self.pending(), self.state(), self.snapshot) == goal,
                goal == spec_scan_rows(old(self).pending(), old(self).state(), old(self).snapshot_id()),
            decreases self.seg, self.pos,
        {
            let segs = Ghost(self.collection.segs());
            if self.pos == 0 {
                if self.seg == 0 {
                    proof {
                        lemma_pending_end(segs@);
                    }
                    return None;
                }
                proof {
                    lemma_pending_next_segment(segs@, self.seg as int);
                }
                self.seg = self.seg - 1;
                self.pos = self.collection.segments[self.seg].entries.len();
                continue;
            }
            proof {
                lemma_pending_step(segs@, self.seg as int, self.pos as int);
            }
            let ghost st = self.state();
            let ghost p = self.pending();
            let e = &self.collection.segments[self.seg].entries[self.pos - 1];
            assert(e@ == segs@[self.seg as int][self.pos - 1]);
            self.pos = self.pos - 1;
            proof {
                assert(p[0] == e@);
                assert(p.drop_first() =~= self.pending());
            }
            match e {
                LogEntry::Entity(tx, EntityEntry::Updated(row)) => {
                    if *tx <= self.snapshot && self.committed.contains(tx) {
                        let ghost was = self.visited@;
                        if self.visited.insert(row.id) {
                            return Some(row.clone());
                        }
                        assert(self.visited@ =~= was);
                    }
                },
                LogEntry::Entity(tx, EntityEntry::Deleted(id)) => {
                    if *tx <= self.snapshot && self.committed.contains(tx) {
                        self.visited.insert(*id);
                    }
                },
                LogEntry::Transaction(tx, TransactionEntry::Committed) => {
                    if *tx <= self.snapshot {
                        self.committed.insert(*tx);
                    }
                },
                LogEntry::Transaction(_, TransactionEntry::Rollbacked) => {},
            }
            proof {
                assert(self.state() == spec_step(st, e@, self.snapshot).0);
            }
        }
    }
}

impl<'a> DBOperator for TableScan<'a> {
    closed spec fn inv(&self) -> bool {
        self.wf()
    }

    closed spec fn rest(&self) -> Seq<RowView> {
        spec_scan_rows(self.pending(), self.state(), self.snapshot)
    }

    /// A scan reads segments held in memory: it never fails.
    open spec fn infallible(&self) -> bool {
        true
    }

    open spec fn next_ok(&self) -> bool {
        true
    }

    fn next(&mut self) -> (r: DBResult<Option<Row>>)
        ensures
            r is Ok,
    {
        Ok(self.next_row())
    }

    fn duplicate(&self) -> (r: TableScan<'a>) {
        TableScan {
            collection: self.collection,
            seg: self.seg,
            pos: self.pos,
            visited: self.visited.clone(),
            committed: self.committed.clone(),
            snapshot: self.snapshot,
        }
    }
}

} // verus!
