//! Log records and their binary form:
//! `[tx:16] [kind:u8] [rest]`, where kind 0 is a delete (`rest` = row id),
//! 1 an update (`rest` = row id, then the row payload), 2 a commit and 3 a
//! rollback (no `rest`). Ids are written big-endian.
use vstd::prelude::*;
use vstd::bytes::*;
use vstd::slice::slice_subrange;
use crate::entry_fields::{EntryFields, spec_row_bytes, spec_row_fits, ROW_OVERHEAD};
use crate::errors::CompressionError;
use crate::field::FieldValue;

verus! {

/// A row: an id chosen by the client and its packed columns.
pub struct Row {
    pub id: u128,
    pub fields: EntryFields,
}

/// Mathematical row: id and column values.
pub struct RowView {
    pub id: u128,
    pub fields: Seq<FieldValue>,
}

impl View for Row {
    type V = RowView;

    open spec fn view(&self) -> RowView {
        RowView { id: self.id, fields: self.fields@ }
    }
}

impl Clone for Row {
    fn clone(&self) -> (r: Row)
        ensures
            r@ == self@,
    {
        Row { id: self.id, fields: self.fields.clone() }
    }
}

impl Row {
    /// A row with the columns of `a` followed by those of `b`, under `a`'s id;
    /// `None` when that makes more than 255 columns.
    pub fn combine(a: &Row, b: &Row) -> (r: Option<Row>)
        ensures
            r is Some <==> a@.fields.len() + b@.fields.len() <= 255,
            r is Some ==> r.unwrap()@ == (RowView { id: a.id, fields: a@.fields + b@.fields }),
    {
        match EntryFields::combine(&a.fields, &b.fields) {
            Some(fields) => Some(Row { id: a.id, fields }),
            None => None,
        }
    }
}

/// What a row entry records.
pub enum EntityEntry {
    Updated(Row),
    Deleted(u128),
}

/// What a transaction entry records.
#[derive(Debug, Clone, Copy, PartialEq, Eq, Structural)]
pub enum TransactionEntry {
    Committed,
    Rollbacked,
}

/// One record of a segment, under the id of the transaction that wrote it.
pub enum LogEntry {
    Entity(u128, EntityEntry),
    Transaction(u128, TransactionEntry),
}

impl Clone for LogEntry {
    fn clone(&self) -> (r: LogEntry)
        ensures
            r@ == self@,
    {
        match self {
            LogEntry::Entity(tx, EntityEntry::Updated(row)) => LogEntry::Entity(*tx, EntityEntry::Updated(row.clone())),
            LogEntry::Entity(tx, EntityEntry::Deleted(id)) => LogEntry::Entity(*tx, EntityEntry::Deleted(*id)),
            LogEntry::Transaction(tx, t) => LogEntry::Transaction(*tx, *t),
        }
    }
}

/// Mathematical log record.
pub enum EntryView {
    Update(u128, RowView),
    Delete(u128, u128),
    Commit(u128),
    Rollback(u128),
}

impl View for LogEntry {
    type V = EntryView;

    open spec fn view(&self) -> EntryView {
        match self {
            LogEntry::Entity(tx, EntityEntry::Updated(row)) => EntryView::Update(*tx, row@),
            LogEntry::Entity(tx, EntityEntry::Deleted(id)) => EntryView::Delete(*tx, *id),
            LogEntry::Transaction(tx, TransactionEntry::Committed) => EntryView::Commit(*tx),
            LogEntry::Transaction(tx, TransactionEntry::Rollbacked) => EntryView::Rollback(*tx),
        }
    }
}

/// Transaction id of a record.
pub open spec fn spec_tx_of(e: EntryView) -> u128 {
    match e {
        EntryView::Update(tx, _) => tx,
        EntryView::Delete(tx, _) => tx,
        EntryView::Commit(tx) => tx,
        EntryView::Rollback(tx) => tx,
    }
}

/// A record can be encoded: an update's row fits.
pub open spec fn spec_entry_fits(e: EntryView) -> bool {
    match e {
        EntryView::Update(_, row) => spec_row_fits(row.fields),
        _ => true,
    }
}

/// Big-endian bytes of a 128-bit id.
pub open spec fn spec_id_bytes(x: u128) -> Seq<u8> {
    Seq::new(16, |i: int| spec_u128_to_le_bytes(x)[15 - i])
}

/// The encoding of a record.
pub open spec fn spec_entry_bytes(e: EntryView) -> Seq<u8> {
    match e {
        EntryView::Delete(tx, id) => spec_id_bytes(tx) + seq![0u8] + spec_id_bytes(id),
        EntryView::Update(tx, row) => spec_id_bytes(tx) + seq![1u8] + spec_id_bytes(row.id)
            + spec_row_bytes(row.fields),
        EntryView::Commit(tx) => spec_id_bytes(tx) + seq![2u8],
        EntryView::Rollback(tx) => spec_id_bytes(tx) + seq![3u8],
    }
}

/// Fixed bookkeeping counted per record.
pub const ENTRY_OVERHEAD: u64 = 72;

proof fn lemma_id_bytes(x: u128)
    ensures
        spec_id_bytes(x).len() == 16,
        forall|y: u128| #[trigger] spec_id_bytes(y) == spec_id_bytes(x) ==> y == x,
{
    lemma_auto_spec_u128_to_from_le_bytes();
    assert forall|y: u128| #[trigger] spec_id_bytes(y) == spec_id_bytes(x) implies y == x by {
        assert(spec_u128_to_le_bytes(y) =~= spec_u128_to_le_bytes(x)) by {
            assert forall|i: int| 0 <= i < 16 implies spec_u128_to_le_bytes(y)[i] == spec_u128_to_le_bytes(x)[i] by {
                assert(spec_id_bytes(y)[15 - i] == spec_id_bytes(x)[15 - i]);
            }
        }
    }
}

/// Appends the big-endian bytes of an id.
pub(crate) fn push_id(x: u128, out: &mut Vec<u8>)
    ensures
        final(out)@ == old(out)@ + spec_id_bytes(x),
{
    let le = u128_to_le_bytes(x);
    let ghost start = out@;
    let mut i: usize = 0;
    while i < 16
        invariant
            le@ == spec_u128_to_le_bytes(x),
            le@.len() == 16,
            0 <= i <= 16,
            out@ == start + spec_id_bytes(x).take(i as int),
        decreases 16 - i,
    {
        out.push(le[15 - i]);
        assert(spec_id_bytes(x).take(i + 1) =~= spec_id_bytes(x).take(i as int).push(le@[15 - i]));
        i = i + 1;
    }
    assert(spec_id_bytes(x).take(16) =~= spec_id_bytes(x));
}

/// Reads a big-endian id from 16 bytes.
fn read_id(b: &[u8]) -> (r: u128)
    requires
        b@.len() == 16,
    ensures
        spec_id_bytes(r) == b@,
{
    let mut le: Vec<u8> = Vec::new();
    let mut i: usize = 0;
    while i < 16
        invariant
            b@.len() == 16,
            0 <= i <= 16,
            le@.len() == i,
            forall|j: int| 0 <= j < i ==> le@[j] == b@[15 - j],
        decreases 16 - i,
    {
        le.push(b[15 - i]);
        i = i + 1;
    }
    let r = u128_from_le_bytes(le.as_slice());
    proof {
        lemma_auto_spec_u128_to_from_le_bytes();
        assert(spec_id_bytes(r) =~= b@);
    }
    r
}

impl LogEntry {
    pub fn update(transaction_id: u128, entity_id: u128, fields: EntryFields) -> (r: LogEntry)
        ensures
            r@ == EntryView::Update(transaction_id, RowView { id: entity_id, fields: fields@ }),
    {
        LogEntry::Entity(transaction_id, EntityEntry::Updated(Row { id: entity_id, fields }))
    }

    pub fn delete(transaction_id: u128, entity_id: u128) -> (r: LogEntry)
        ensures
            r@ == EntryView::Delete(transaction_id, entity_id),
    {
        LogEntry::Entity(transaction_id, EntityEntry::Deleted(entity_id))
    }

    pub fn commit(transaction_id: u128) -> (r: LogEntry)
        ensures
            r@ == EntryView::Commit(transaction_id),
    {
        LogEntry::Transaction(transaction_id, TransactionEntry::Committed)
    }

    pub fn rollback(transaction_id: u128) -> (r: LogEntry)
        ensures
            r@ == EntryView::Rollback(transaction_id),
    {
        LogEntry::Transaction(transaction_id, TransactionEntry::Rollbacked)
    }

    pub fn transaction_id(&self) -> (r: u128)
        ensures
            r == spec_tx_of(self@),
    {
        match self {
            LogEntry::Entity(id, _) => *id,
            LogEntry::Transaction(id, _) => *id,
        }
    }

    /// Appends the encoding of this record.
    pub fn compress_to(&self, store: &mut Vec<u8>)
        ensures
            final(store)@ == old(store)@ + spec_entry_bytes(self@),
    {
        let ghost start = store@;
        match self {
            LogEntry::Entity(tx, EntityEntry::Deleted(id)) => {
                push_id(*tx, store);
                store.push(0);
                push_id(*id, store);
            },
            LogEntry::Entity(tx, EntityEntry::Updated(row)) => {
                push_id(*tx, store);
                store.push(1);
                push_id(row.id, store);
                let b = row.fields.as_bytes();
                let ghost mid = store@;
                let mut i: usize = 0;
                while i < b.len()
                    invariant
                        0 <= i <= b@.len(),
                        store@ == mid + b@.take(i as int),
                    decreases b@.len() - i,
                {
                    store.push(b[i]);
                    assert(b@.take(i + 1) =~= b@.take(i as int).push(b@[i as int]));
                    i = i + 1;
                }
                assert(b@.take(b@.len() as int) =~= b@);
            },
            LogEntry::Transaction(tx, TransactionEntry::Committed) => {
                push_id(*tx, store);
                store.push(2);
            },
            LogEntry::Transaction(tx, TransactionEntry::Rollbacked) => {
                push_id(*tx, store);
                store.push(3);
            },
        }
        assert(store@ =~= start + spec_entry_bytes(self@));
    }

    /// Reads a record from its encoding. Fails exactly when the bytes are
    /// the encoding of no record.
    pub fn decompress(b: &[u8]) -> (r: Result<LogEntry, CompressionError>)
        ensures
            r is Ok ==> spec_entry_bytes(r.unwrap()@) == b@ && spec_entry_fits(r.unwrap()@),
            forall|e: EntryView|
                spec_entry_fits(e) && #[trigger] spec_entry_bytes(e) == b@ ==> (r is Ok && r.unwrap()@ == e),
    {
        proof {
            lemma_id_bytes(0);
        }
        if b.len() < 17 {
            proof {
                assert forall|e: EntryView| spec_entry_fits(e) && #[trigger] spec_entry_bytes(e) == b@ implies false by {
                    lemma_id_bytes(spec_tx_of(e));
                }
            }
            return Err(CompressionError::from_str("record shorter than its header"));
        }
        let tx = read_id(slice_subrange(b, 0, 16));
        let kind = b[16];
        proof {
            lemma_id_bytes(tx);
            assert forall|e: EntryView| spec_entry_fits(e) && #[trigger] spec_entry_bytes(e) == b@
                implies spec_tx_of(e) == tx && spec_entry_bytes(e)[16] == kind by {
                lemma_id_bytes(spec_tx_of(e));
                assert(spec_entry_bytes(e).subrange(0, 16) =~= spec_id_bytes(spec_tx_of(e)));
                assert(b@.subrange(0, 16) == spec_id_bytes(tx));
            }
        }
        if kind == 2 || kind == 3 {
            if b.len() != 17 {
                proof {
                    assert forall|e: EntryView| spec_entry_fits(e) && #[trigger] spec_entry_bytes(e) == b@ implies false by {
                        lemma_id_bytes(spec_tx_of(e));
                        assert(spec_entry_bytes(e)[16] == kind);
                    }
                }
                return Err(CompressionError::from_str("trailing bytes after a transaction record"));
            }
            let r = if kind == 2 {
                LogEntry::Transaction(tx, TransactionEntry::Committed)
            } else {
                LogEntry::Transaction(tx, TransactionEntry::Rollbacked)
            };
            assert(spec_entry_bytes(r@) =~= b@);
            proof {
                assert forall|e: EntryView| spec_entry_fits(e) && #[trigger] spec_entry_bytes(e) == b@ implies r@ == e by {
                    lemma_id_bytes(spec_tx_of(e));
                    assert(spec_entry_bytes(e)[16] == kind);
                }
            }
            return Ok(r);
        }
        if kind > 3 {
            proof {
                assert forall|e: EntryView| spec_entry_fits(e) && #[trigger] spec_entry_bytes(e) == b@ implies false by {
                    lemma_id_bytes(spec_tx_of(e));
                    assert(spec_entry_bytes(e)[16] == kind);
                }
            }
            return Err(CompressionError::from_str("unknown record kind"));
        }
        if b.len() < 33 {
            proof {
                assert forall|e: EntryView| spec_entry_fits(e) && #[trigger] spec_entry_bytes(e) == b@ implies false by {
                    lemma_id_bytes(spec_tx_of(e));
                    assert(spec_entry_bytes(e)[16] == kind);
                    match e {
                        EntryView::Delete(_, id) => lemma_id_bytes(id),
                        EntryView::Update(_, row) => lemma_id_bytes(row.id),
                        _ => {},
                    }
                }
            }
            return Err(CompressionError::from_str("record shorter than its row id"));
        }
        let id = read_id(slice_subrange(b, 17, 33));
        proof {
            lemma_id_bytes(id);
            assert forall|e: EntryView| spec_entry_fits(e) && #[trigger] spec_entry_bytes(e) == b@
                implies (match e {
                    EntryView::Delete(_, x) => x == id,
                    EntryView::Update(_, row) => row.id == id && spec_row_bytes(row.fields) == b@.subrange(33, b@.len() as int),
                    _ => true,
                }) by {
                lemma_id_bytes(spec_tx_of(e));
                match e {
                    EntryView::Delete(_, x) => {
                        lemma_id_bytes(x);
                        assert(spec_entry_bytes(e).subrange(17, 33) =~= spec_id_bytes(x));
                        assert(b@.subrange(17, 33) == spec_id_bytes(id));
                    },
                    EntryView::Update(_, row) => {
                        lemma_id_bytes(row.id);
                        assert(spec_entry_bytes(e).subrange(17, 33) =~= spec_id_bytes(row.id));
                        assert(b@.subrange(17, 33) == spec_id_bytes(id));
                        assert(spec_entry_bytes(e).subrange(33, b@.len() as int) =~= spec_row_bytes(row.fields));
                    },
                    _ => {},
                }
            }
        }
        if kind == 0 {
            if b.len() != 33 {
                proof {
                    assert forall|e: EntryView| spec_entry_fits(e) && #[trigger] spec_entry_bytes(e) == b@ implies false by {
                        lemma_id_bytes(spec_tx_of(e));
                        assert(spec_entry_bytes(e)[16] == kind);
                        if let EntryView::Delete(_, x) = e {
                            lemma_id_bytes(x);
                        }
                    }
                }
                return Err(CompressionError::from_str("trailing bytes after a delete record"));
            }
            let r = LogEntry::Entity(tx, EntityEntry::Deleted(id));
            assert(spec_entry_bytes(r@) =~= b@);
            proof {
                assert forall|e: EntryView| spec_entry_fits(e) && #[trigger] spec_entry_bytes(e) == b@ implies r@ == e by {
                    assert(spec_entry_bytes(e)[16] == kind);
                }
            }
            return Ok(r);
        }
        match EntryFields::parse(slice_subrange(b, 33, b.len())) {
            None => {
                proof {
                    assert forall|e: EntryView| spec_entry_fits(e) && #[trigger] spec_entry_bytes(e) == b@ implies false by {
                        assert(spec_entry_bytes(e)[16] == kind);
                    }
                }
                Err(CompressionError::from_str("malformed row payload"))
            },
            Some(fields) => {
                let r = LogEntry::Entity(tx, EntityEntry::Updated(Row { id, fields }));
                proof {
                    assert(spec_entry_bytes(r@) =~= b@);
                    assert forall|e: EntryView| spec_entry_fits(e) && #[trigger] spec_entry_bytes(e) == b@ implies r@ == e by {
                        assert(spec_entry_bytes(e)[16] == kind);
                    }
                }
                Ok(r)
            },
        }
    }

    /// Estimated memory taken by the record, for cache accounting.
    pub fn byte_size(&self) -> (r: u64)
        ensures
            r == ENTRY_OVERHEAD + match self@ {
                EntryView::Update(_, row) => spec_row_bytes(row.fields).len() + ROW_OVERHEAD,
                _ => 0,
            },
    {
        match self {
            LogEntry::Entity(_, EntityEntry::Updated(row)) => {
                let n = row.fields.byte_size();
                ENTRY_OVERHEAD + n as u64
            },
            _ => ENTRY_OVERHEAD,
        }
    }
}

} // verus!
