//! Compaction of two adjacent segments into the latest committed state of
//! each row they hold.
use vstd::prelude::*;
use std::collections::BTreeSet;
use crate::entry_fields::EntryFields;
use crate::errors::CompactionError;
use crate::field::FieldValue;
use crate::log_entry::{EntityEntry, EntryView, LogEntry, RowView, TransactionEntry};
use crate::log_file::{LogFile, spec_entries};
use crate::mvcc::spec_rev;

verus! {

broadcast use vstd::std_specs::btree::group_btree_axioms;

/// The surviving state of each row, newest first: for every row id, the
/// first committed record about it met while reading `es` in order (its
/// columns, or `None` for a tombstone).
pub open spec fn spec_survivors(es: Seq<EntryView>, visited: Set<u128>, committed: Set<u128>)
    -> Seq<(u128, Option<Seq<FieldValue>>)>
    decreases es.len(),
{
    if es.len() == 0 {
        seq![]
    } else {
        let rest = es.drop_first();
        match es[0] {
            EntryView::Update(tx, row) => if committed.contains(tx) && !visited.contains(row.id) {
                seq![(row.id, Some(row.fields))] + spec_survivors(rest, visited.insert(row.id), committed)
            } else {
                spec_survivors(rest, visited, committed)
            },
            EntryView::Delete(tx, id) => if committed.contains(tx) && !visited.contains(id) {
                seq![(id, None::<Seq<FieldValue>>)] + spec_survivors(rest, visited.insert(id), committed)
            } else {
                spec_survivors(rest, visited, committed)
            },
            EntryView::Commit(tx) => spec_survivors(rest, visited, committed.insert(tx)),
            EntryView::Rollback(_) => spec_survivors(rest, visited, committed),
        }
    }
}

/// The largest committed transaction id in `es`, or `acc` if larger.
pub open spec fn spec_newest_commit(es: Seq<EntryView>, acc: u128) -> u128
    decreases es.len(),
{
    if es.len() == 0 {
        acc
    } else {
        let next = match es[0] {
            EntryView::Commit(tx) => if tx > acc { tx } else { acc },
            _ => acc,
        };
        spec_newest_commit(es.drop_first(), next)
    }
}

/// Records of two adjacent segments, newest first.
pub open spec fn spec_pair_newest_first(older: Seq<EntryView>, newer: Seq<EntryView>) -> Seq<EntryView> {
    spec_rev(newer) + spec_rev(older)
}

/// Views of the survivor list built in memory.
pub open spec fn spec_survivor_views(v: Seq<(u128, Option<EntryFields>)>) -> Seq<(u128, Option<Seq<FieldValue>>)> {
    v.map_values(|p: (u128, Option<EntryFields>)| (p.0, match p.1 {
        Some(f) => Some(f@),
        None => None::<Seq<FieldValue>>,
    }))
}

pub proof fn lemma_rev_index(s: Seq<EntryView>, i: int)
    requires
        0 <= i < s.len(),
    ensures
        spec_rev(s).len() == s.len(),
        spec_rev(s)[i] == s[s.len() - 1 - i],
    decreases s.len(),
{
    lemma_rev_len(s);
    if i > 0 {
        lemma_rev_index(s.drop_last(), i - 1);
    }
}

pub proof fn lemma_rev_len(s: Seq<EntryView>)
    ensures
        spec_rev(s).len() == s.len(),
    decreases s.len(),
{
    if s.len() > 0 {
        lemma_rev_len(s.drop_last());
    }
}

/// Reads the records of both segments, newest first, and returns the
/// surviving state of each row with the newest committed transaction id
/// (zero when there is none).
pub fn compress_log_files(older: &LogFile, newer: &LogFile) -> (r: (Vec<(u128, Option<EntryFields>)>, u128))
    requires
        newer.entries@.len() + older.entries@.len() <= usize::MAX,
    ensures
        ({
            let es = spec_pair_newest_first(spec_entries(older.entries@), spec_entries(newer.entries@));
            &&& spec_survivor_views(r.0@) == spec_survivors(es, Set::empty(), Set::empty().insert(0))
            &&& r.1 == spec_newest_commit(es, 0)
        }),
{
    let ghost es = spec_pair_newest_first(spec_entries(older.entries@), spec_entries(newer.entries@));
    let ghost nv = spec_entries(newer.entries@);
    let ghost ov = spec_entries(older.entries@);
    proof {
        lemma_rev_len(nv);
        lemma_rev_len(ov);
    }
    let mut out: Vec<(u128, Option<EntryFields>)> = Vec::new();
    let mut visited: BTreeSet<u128> = BTreeSet::new();
    let mut committed: BTreeSet<u128> = BTreeSet::new();
    committed.insert(0);
    let mut newest: u128 = 0;
    let total = newer.entries.len() + older.entries.len();
    let mut k: usize = 0;
    proof {
        assert(es == spec_rev(nv) + spec_rev(ov));
        assert(es.skip(0) =~= es);
        assert(committed@ =~= Set::<u128>::empty().insert(0));
        assert(visited@ =~= Set::<u128>::empty());
        assert(spec_survivor_views(out@) =~= Seq::<(u128, Option<Seq<FieldValue>>)>::empty());
    }
    while k < total
        invariant
            es == spec_rev(nv) + spec_rev(ov),
            spec_rev(nv).len() == nv.len(),
            spec_rev(ov).len() == ov.len(),
            nv == spec_entries(newer.entries@),
            ov == spec_entries(older.entries@),
            total == es.len(),
            es.len() == nv.len() + ov.len(),
            nv.len() == newer.entries@.len(),
            ov.len() == older.entries@.len(),
            0 <= k <= total,
            spec_survivor_views(out@) + spec_survivors(es.skip(k as int), visited@, committed@)
                == spec_survivors(es, Set::empty(), Set::empty().insert(0)),
            spec_newest_commit(es.skip(k as int), newest) == spec_newest_commit(es, 0),
        decreases total - k,
    {
        let e = if k < newer.entries.len() {
            &newer.entries[newer.entries.len() - 1 - k]
        } else {
            &older.entries[older.entries.len() - 1 - (k - newer.entries.len())]
        };
        proof {
            if k < nv.len() {
                lemma_rev_index(nv, k as int);
                assert(es[k as int] == spec_rev(nv)[k as int]);
            } else {
                lemma_rev_index(ov, k - nv.len());
                assert(es[k as int] == spec_rev(ov)[k - nv.len()]);
            }
            assert(es[k as int] == e@);
            assert(es.skip(k as int)[0] == e@);
            assert(es.skip(k as int).drop_first() =~= es.skip(k + 1));
        }
        let ghost before = spec_survivor_views(out@);
        match e {
            LogEntry::Entity(tx, EntityEntry::Updated(row)) => {
                if committed.contains(tx) && !visited.contains(&row.id) {
                    visited.insert(row.id);
                    out.push((row.id, Some(row.fields.clone())));
                    assert(spec_survivor_views(out@) =~= before.push((row.id, Some(row.fields@))));
                }
            },
            LogEntry::Entity(tx, EntityEntry::Deleted(id)) => {
                if committed.contains(tx) && !visited.contains(id) {
                    visited.insert(*id);
                    out.push((*id, None));
                    assert(spec_survivor_views(out@) =~= before.push((*id, None::<Seq<FieldValue>>)));
                }
            },
            LogEntry::Transaction(tx, TransactionEntry::Committed) => {
                committed.insert(*tx);
                if *tx > newest {
                    newest = *tx;
                }
            },
            LogEntry::Transaction(_, TransactionEntry::Rollbacked) => {},
        }
        k = k + 1;
    }
    assert(es.skip(total as int).len() == 0);
    (out, newest)
}

/// The records a chunk of survivors is rewritten as: an update under
/// `tx` for every survivor that is not a tombstone, in order.
pub open spec fn spec_rewrite(chunk: Seq<(u128, Option<Seq<FieldValue>>)>, tx: u128) -> Seq<EntryView>
    decreases chunk.len(),
{
    if chunk.len() == 0 {
        seq![]
    } else {
        let rest = spec_rewrite(chunk.drop_last(), tx);
        match chunk.last().1 {
            Some(f) => rest.push(EntryView::Update(tx, RowView { id: chunk.last().0, fields: f })),
            None => rest,
        }
    }
}

/// Rewriting never adds records.
pub proof fn lemma_rewrite_len(chunk: Seq<(u128, Option<Seq<FieldValue>>)>, tx: u128)
    ensures
        spec_rewrite(chunk, tx).len() <= chunk.len(),
    decreases chunk.len(),
{
    if chunk.len() > 0 {
        lemma_rewrite_len(chunk.drop_last(), tx);
    }
}

fn rewrite_chunk(v: &Vec<(u128, Option<EntryFields>)>, from: usize, to: usize, tx: u128) -> (r: Vec<LogEntry>)
    requires
        from <= to <= v@.len(),
    ensures
        spec_entries(r@) == spec_rewrite(spec_survivor_views(v@).subrange(from as int, to as int), tx),
{
    let ghost sv = spec_survivor_views(v@);
    let mut r: Vec<LogEntry> = Vec::new();
    let mut i: usize = from;
    while i < to
        invariant
            from <= i <= to <= v@.len(),
            sv == spec_survivor_views(v@),
            spec_entries(r@) == spec_rewrite(sv.subrange(from as int, i as int), tx),
        decreases to - i,
    {
        let ghost chunk = sv.subrange(from as int, i + 1);
        assert(chunk.drop_last() =~= sv.subrange(from as int, i as int));
        assert(chunk.last() == sv[i as int]);
        match &v[i].1 {
            Some(f) => {
                let ghost before = r@;
                r.push(LogEntry::update(tx, v[i].0, f.clone()));
                assert(spec_entries(r@) =~= spec_entries(before).push(EntryView::Update(tx, RowView { id: v@[i as int].0, fields: f@ })));
            },
            None => {},
        }
        i = i + 1;
    }
    r
}

/// Splits the survivors into the new contents of the older and the newer
/// segment: the first `max_entries` survivors go to the older one, the rest
/// to the newer one, each rewritten as updates under `tx`. Fails when the
/// survivors need more than two segments.
pub fn save_compacted_entries(entries: &Vec<(u128, Option<EntryFields>)>, max_entries: usize, tx: u128)
    -> (r: Result<(Vec<LogEntry>, Vec<LogEntry>), CompactionError>)
    requires
        max_entries >= 1,
    ensures
        r is Err <==> entries@.len() > 2 * max_entries,
        r matches Ok((a, b)) ==> ({
            let sv = spec_survivor_views(entries@);
            let cut = if sv.len() < max_entries { sv.len() as int } else { max_entries as int };
            &&& spec_entries(a@) == spec_rewrite(sv.subrange(0, cut), tx)
            &&& spec_entries(b@) == spec_rewrite(sv.subrange(cut, sv.len() as int), tx)
        }),
{
    if entries.len() > max_entries && entries.len() - max_entries > max_entries {
        return Err(CompactionError::from_str("compaction needs more than two segments"));
    }
    let cut = if entries.len() < max_entries { entries.len() } else { max_entries };
    let a = rewrite_chunk(entries, 0, cut, tx);
    let b = rewrite_chunk(entries, cut, entries.len(), tx);
    Ok((a, b))
}

} // verus!
