//! Segments: the ordered records of one `<k>.log` file, and the framing of
//! a segment file as a run of `[varint length] [encoded record]` frames.
use vstd::prelude::*;
use vstd::slice::slice_subrange;
use crate::errors::{CompressionError, StorageError};
use crate::entry_fields::ROW_OVERHEAD;
use crate::log_entry::{ENTRY_OVERHEAD, EntryView, LogEntry, spec_entry_bytes, spec_entry_fits};
use crate::varint::{decode_varint, encode_varint, starts_with_vint, vint_of};

verus! {

/// One frame: the varint length of a record's encoding, then the encoding.
pub open spec fn spec_frame(p: Seq<u8>) -> Seq<u8> {
    vint_of(p.len() as u64) + p
}

/// A frame holding `p`, followed by `rest`.
pub open spec fn spec_frame_then(p: Seq<u8>, rest: Seq<u8>) -> Seq<u8> {
    spec_frame(p) + rest
}

/// The file bytes of a run of records.
pub open spec fn spec_log_bytes(es: Seq<EntryView>) -> Seq<u8>
    decreases es.len(),
{
    if es.len() == 0 {
        seq![]
    } else {
        spec_log_bytes(es.drop_last()) + spec_frame(spec_entry_bytes(es.last()))
    }
}

/// Every record of a run can be encoded.
pub open spec fn spec_all_fit(es: Seq<EntryView>) -> bool {
    forall|i: int| 0 <= i < es.len() ==> spec_entry_fits(#[trigger] es[i])
}

/// Estimated memory of a run of records: the sum of the records' estimates.
pub open spec fn spec_sum_sizes(es: Seq<EntryView>) -> int
    decreases es.len(),
{
    if es.len() == 0 {
        0
    } else {
        spec_sum_sizes(es.drop_last()) + spec_entry_size(es.last())
    }
}

/// Estimated memory of one record, as `LogEntry::byte_size` gives it.
pub open spec fn spec_entry_size(e: EntryView) -> int {
    ENTRY_OVERHEAD + match e {
        EntryView::Update(_, row) => crate::entry_fields::spec_row_bytes(row.fields).len() + ROW_OVERHEAD,
        _ => 0,
    }
}

proof fn lemma_sum_sizes_grows(es: Seq<EntryView>)
    ensures
        spec_sum_sizes(es) >= 0,
    decreases es.len(),
{
    if es.len() > 0 {
        lemma_sum_sizes_grows(es.drop_last());
    }
}

/// Views of a run of records.
pub open spec fn spec_entries(es: Seq<LogEntry>) -> Seq<EntryView> {
    es.map_values(|e: LogEntry| e@)
}

proof fn lemma_log_bytes_concat(a: Seq<EntryView>, b: Seq<EntryView>)
    ensures
        spec_log_bytes(a + b) == spec_log_bytes(a) + spec_log_bytes(b),
    decreases b.len(),
{
    if b.len() == 0 {
        assert(a + b =~= a);
        assert(spec_log_bytes(a) + spec_log_bytes(b) =~= spec_log_bytes(a));
    } else {
        lemma_log_bytes_concat(a, b.drop_last());
        assert((a + b).drop_last() =~= a + b.drop_last());
        assert(spec_log_bytes(a) + spec_log_bytes(b) =~= spec_log_bytes(a) + spec_log_bytes(b.drop_last())
            + spec_frame(spec_entry_bytes(b.last())));
    }
}

/// Where record `k` stands in the file bytes of `es`.
proof fn lemma_frame_at(bytes: Seq<u8>, es: Seq<EntryView>, k: int, before: int)
    requires
        spec_log_bytes(es) == bytes,
        0 <= k < es.len(),
        0 <= before <= bytes.len(),
        bytes.len() <= u64::MAX,
        bytes.subrange(0, before) == spec_log_bytes(es.take(k)),
    ensures
        bytes.subrange(before, bytes.len() as int)
            == spec_frame_then(spec_entry_bytes(es[k]), spec_log_bytes(es.subrange(k + 1, es.len() as int))),
        spec_entry_bytes(es[k]).len() <= u64::MAX,
{
    assert(es =~= es.take(k) + (seq![es[k]] + es.subrange(k + 1, es.len() as int)));
    lemma_log_bytes_concat(es.take(k), seq![es[k]] + es.subrange(k + 1, es.len() as int));
    lemma_log_bytes_concat(seq![es[k]], es.subrange(k + 1, es.len() as int));
    assert(seq![es[k]].drop_last() =~= Seq::<EntryView>::empty());
    assert(spec_log_bytes(Seq::<EntryView>::empty()) == Seq::<u8>::empty());
    assert(spec_log_bytes(seq![es[k]]) == spec_log_bytes(seq![es[k]].drop_last())
        + spec_frame(spec_entry_bytes(seq![es[k]].last())));
    assert(spec_log_bytes(seq![es[k]]) =~= spec_frame(spec_entry_bytes(es[k])));
    let tailb = bytes.subrange(before, bytes.len() as int);
    assert(tailb =~= spec_frame_then(spec_entry_bytes(es[k]), spec_log_bytes(es.subrange(k + 1, es.len() as int))));
}

/// Data that can be split into length-prefixed frames.
pub trait SplittableByLengthEncoding {
    fn split_by_length_encoding(self) -> SplitByLengthEncoding;
}

impl SplittableByLengthEncoding for Vec<u8> {
    fn split_by_length_encoding(self) -> (r: SplitByLengthEncoding)
        ensures
            r.data() == self@,
            r.position() == 0,
    {
        SplitByLengthEncoding::new(self)
    }
}

/// Splits a segment file into its frames, front to back.
#[derive(Clone)]
pub struct SplitByLengthEncoding {
    slice: Vec<u8>,
    position: usize,
}

impl SplitByLengthEncoding {
    pub fn new(slice: Vec<u8>) -> (r: SplitByLengthEncoding)
        ensures
            r.data() == slice@,
            r.position() == 0,
    {
        SplitByLengthEncoding { slice, position: 0 }
    }

    pub closed spec fn data(&self) -> Seq<u8> {
        self.slice@
    }

    pub closed spec fn position(&self) -> int {
        self.position as int
    }

    /// The next frame, as the start and end of its record in the data;
    /// `None` once the data is used up; an error where the rest of the data
    /// does not start with a whole frame.
    pub fn next(&mut self) -> (r: Option<Result<(usize, usize), CompressionError>>)
        requires
            0 <= old(self).position() <= old(self).data().len(),
        ensures
            final(self).data() == old(self).data(),
            0 <= final(self).position() <= final(self).data().len(),
            r is None <==> old(self).position() == old(self).data().len(),
            r is None ==> final(self).position() == old(self).position(),
            r matches Some(Ok((s, e))) ==> old(self).position() < s <= e == final(self).position()
                && old(self).data().subrange(old(self).position(), e as int)
                    == spec_frame(old(self).data().subrange(s as int, e as int)),
            r matches Some(Err(_)) ==> forall|p: Seq<u8>, rest: Seq<u8>|
                old(self).data().subrange(old(self).position(), old(self).data().len() as int)
                    != #[trigger] spec_frame_then(p, rest),
            forall|p: Seq<u8>, rest: Seq<u8>|
                old(self).data().subrange(old(self).position(), old(self).data().len() as int)
                    == #[trigger] spec_frame_then(p, rest) && p.len() <= u64::MAX
                ==> (r matches Some(Ok((s, e))) && old(self).data().subrange(s as int, e as int) == p),
    {
        let ghost here = self.slice@.subrange(self.position as int, self.slice@.len() as int);
        let tail = slice_subrange(self.slice.as_slice(), self.position, self.slice.len());
        assert(tail@ =~= here);
        match decode_varint(tail) {
            None => {
                if self.position == self.slice.len() {
                    proof {
                        assert forall|p: Seq<u8>, rest: Seq<u8>|
                            here == #[trigger] spec_frame_then(p, rest) && p.len() <= u64::MAX implies false by {
                            let vb = vint_of(p.len() as u64);
                            assert(spec_frame_then(p, rest).len() == vb.len() + p.len() + rest.len());
                            assert(vb.len() == 0);
                            assert(tail@.subrange(0, 0) =~= vb);
                            assert(starts_with_vint(tail@, p.len() as u64));
                        }
                    }
                    return None;
                }
                proof {
                    assert forall|p: Seq<u8>, rest: Seq<u8>| here == #[trigger] spec_frame_then(p, rest) implies false by {
                        if p.len() <= u64::MAX {
                            let vb = vint_of(p.len() as u64);
                            assert(here.subrange(0, vb.len() as int) =~= vb);
                            assert(starts_with_vint(tail@, p.len() as u64));
                        } else {
                            assert(here.len() <= usize::MAX);
                        }
                    }
                }
                self.position = self.slice.len();
                Some(Err(CompressionError::from_str("malformed frame length")))
            },
            Some((n, rest)) => {
                let start = self.slice.len() - rest.len();
                proof {
                    let vlen = vint_of(n).len() as int;
                    assert(tail@ == vint_of(n) + rest@);
                    assert(rest@ =~= tail@.subrange(vlen, tail@.len() as int));
                    assert(start == self.position + vlen);
                    assert(tail@.subrange(vlen, tail@.len() as int)
                        =~= self.slice@.subrange(start as int, self.slice@.len() as int));
                }
                if (rest.len() as u64) < n {
                    proof {
                        assert forall|p: Seq<u8>, r2: Seq<u8>| here == #[trigger] spec_frame_then(p, r2) implies false by {
                            if p.len() <= u64::MAX {
                                let vb = vint_of(p.len() as u64);
                                assert(here.subrange(0, vb.len() as int) =~= vb);
                                assert(starts_with_vint(tail@, p.len() as u64));
                                assert(tail@ == vint_of(n) + rest@);
                                assert(n == p.len());
                                assert(tail@.subrange(vb.len() as int, tail@.len() as int) =~= rest@);
                                assert(tail@.subrange(vb.len() as int, tail@.len() as int) =~= p + r2);
                            } else {
                                assert(here.len() <= usize::MAX);
                            }
                        }
                    }
                    self.position = self.slice.len();
                    return Some(Err(CompressionError::from_str("frame runs past the end of the data")));
                }
                let end = start + n as usize;
                proof {
                    assert(tail@ == vint_of(n) + rest@);
                    let p = self.slice@.subrange(start as int, end as int);
                    assert(p =~= rest@.subrange(0, n as int));
                    assert(self.slice@.subrange(self.position as int, end as int) =~= vint_of(n) + p);
                    assert forall|q: Seq<u8>, r2: Seq<u8>|
                        here == #[trigger] spec_frame_then(q, r2) && q.len() <= u64::MAX implies p == q by {
                        let vb = vint_of(q.len() as u64);
                        assert(here.subrange(0, vb.len() as int) =~= vb);
                        assert(starts_with_vint(tail@, q.len() as u64));
                        assert(n == q.len());
                        assert(tail@.subrange(vb.len() as int, tail@.len() as int) =~= rest@);
                        assert(tail@.subrange(vb.len() as int, tail@.len() as int) =~= q + r2);
                        assert(q =~= rest@.subrange(0, n as int));
                    }
                }
                self.position = end;
                Some(Ok((start, end)))
            },
        }
    }
}

/// One segment: its records in append order, and its index.
pub struct LogFile {
    pub entries: Vec<LogEntry>,
    pub index: usize,
}

impl LogFile {
    /// An empty segment.
    pub fn new(index: usize) -> (r: LogFile)
        ensures
            r.entries@.len() == 0,
            r.index == index,
    {
        LogFile { entries: Vec::new(), index }
    }

    /// Decodes a segment file. Fails exactly when the bytes are not a run of
    /// whole frames, each holding a valid record.
    pub fn deserialize(file: Vec<u8>, file_index: usize) -> (r: Result<LogFile, StorageError>)
        ensures
            r is Ok ==> spec_log_bytes(spec_entries(r.unwrap().entries@)) == file@
                && r.unwrap().index == file_index,
            forall|es: Seq<EntryView>|
                spec_all_fit(es) && #[trigger] spec_log_bytes(es) == file@
                ==> (r is Ok && spec_entries(r.unwrap().entries@) == es),
    {
        let ghost bytes = file@;
        let flen = file.len();
        assert(bytes.len() <= u64::MAX) by {
            assert(flen as int == bytes.len());
        }
        let mut split = SplitByLengthEncoding::new(file);
        let mut entries: Vec<LogEntry> = Vec::new();
        loop
            invariant
                split.data() == bytes,
                bytes == file@,
                bytes.len() <= u64::MAX,
                0 <= split.position() <= bytes.len(),
                bytes.subrange(0, split.position()) == spec_log_bytes(spec_entries(entries@)),
                forall|es: Seq<EntryView>|
                    spec_all_fit(es) && #[trigger] spec_log_bytes(es) == bytes
                    ==> entries@.len() <= es.len() && es.take(entries@.len() as int) == spec_entries(entries@),
            decreases bytes.len() - split.position(),
        {
            let ghost before = split.position();
            let ghost done = spec_entries(entries@);
            let ghost k = entries@.len() as int;
            match split.next() {
                None => {
                    proof {
                        assert(before == bytes.len());
                        assert(bytes.subrange(0, bytes.len() as int) =~= bytes);
                        assert(spec_log_bytes(spec_entries(entries@)) == bytes);
                        assert forall|es: Seq<EntryView>|
                            spec_all_fit(es) && #[trigger] spec_log_bytes(es) == bytes
                            implies spec_entries(entries@) == es by {
                            if k < es.len() {
                                lemma_frame_at(bytes, es, k, before);
                                assert(spec_entry_bytes(es[k]).len() >= 17);
                            }
                            assert(es.take(k) =~= es);
                        }
                    }
                    return Ok(LogFile { entries, index: file_index });
                },
                Some(Err(e)) => {
                    proof {
                        assert forall|es: Seq<EntryView>|
                            spec_all_fit(es) && #[trigger] spec_log_bytes(es) == bytes
                            implies false by {
                            if k < es.len() {
                                lemma_frame_at(bytes, es, k, before);
                            } else {
                                assert(es.take(k) =~= es);
                            }
                        }
                    }
                    return Err(StorageError::Parse(e));
                },
                Some(Ok((s, e))) => {
                    let data = split.data_slice();
                    let record = slice_subrange(data, s, e);
                    match LogEntry::decompress(record) {
                        Err(err) => {
                            proof {
                                assert forall|es: Seq<EntryView>|
                                    spec_all_fit(es) && #[trigger] spec_log_bytes(es) == bytes
                                    implies false by {
                                    if k < es.len() {
                                        lemma_frame_at(bytes, es, k, before);
                                        assert(spec_entry_fits(es[k]));
                                    } else {
                                        assert(es.take(k) =~= es);
                                    }
                                }
                            }
                            return Err(StorageError::Parse(err));
                        },
                        Ok(entry) => {
                            entries.push(entry);
                            proof {
                                assert(spec_entries(entries@) =~= done.push(entry@));
                                assert(spec_entries(entries@).drop_last() =~= done);
                                assert(bytes.subrange(0, e as int) =~= bytes.subrange(0, before)
                                    + bytes.subrange(before, e as int));
                                assert forall|es: Seq<EntryView>|
                                    spec_all_fit(es) && #[trigger] spec_log_bytes(es) == bytes
                                    implies entries@.len() <= es.len() && es.take(entries@.len() as int) == spec_entries(entries@) by {
                                    if k < es.len() {
                                        lemma_frame_at(bytes, es, k, before);
                                        assert(spec_entry_fits(es[k]));
                                        assert(entry@ == es[k]);
                                        assert(es.take(k + 1) =~= es.take(k).push(es[k]));
                                    } else {
                                        assert(es.take(k) =~= es);
                                    }
                                }
                            }
                        },
                    }
                },
            }
        }
    }

    /// Estimated memory taken by the segment, for cache accounting: the sum
    /// of its records' estimates (at most `u64::MAX`).
    pub fn byte_size(&self) -> (r: u64)
        ensures
            r == spec_sum_sizes(spec_entries(self.entries@)) || (r == u64::MAX && spec_sum_sizes(spec_entries(self.entries@)) > u64::MAX),
    {
        let mut total: u64 = 0;
        let mut i: usize = 0;
        let mut saturated = false;
        while i < self.entries.len()
            invariant
                0 <= i <= self.entries@.len(),
                !saturated ==> total == spec_sum_sizes(spec_entries(self.entries@.take(i as int))),
                saturated ==> total == u64::MAX && spec_sum_sizes(spec_entries(self.entries@.take(i as int))) > u64::MAX,
            decreases self.entries@.len() - i,
        {
            let n = self.entries[i].byte_size();
            proof {
                let es = spec_entries(self.entries@.take(i + 1));
                assert(es.drop_last() =~= spec_entries(self.entries@.take(i as int)));
                assert(es.last() == self.entries@[i as int]@);
                lemma_sum_sizes_grows(spec_entries(self.entries@.take(i as int)));
            }
            if !saturated {
                if total <= u64::MAX - n {
                    total = total + n;
                } else {
                    total = u64::MAX;
                    saturated = true;
                }
            }
            i = i + 1;
        }
        assert(self.entries@.take(self.entries@.len() as int) =~= self.entries@);
        total
    }

    /// The file bytes of a run of records: one frame per record.
    pub fn serialize(entries: &[LogEntry]) -> (r: Vec<u8>)
        ensures
            r@ == spec_log_bytes(spec_entries(entries@)),
    {
        let mut out: Vec<u8> = Vec::new();
        let mut i: usize = 0;
        while i < entries.len()
            invariant
                0 <= i <= entries@.len(),
                out@ == spec_log_bytes(spec_entries(entries@.take(i as int))),
            decreases entries@.len() - i,
        {
            let mut store: Vec<u8> = Vec::new();
            entries[i].compress_to(&mut store);
            let mut len = encode_varint(store.len() as u64);
            out.append(&mut len);
            out.append(&mut store);
            proof {
                let es = spec_entries(entries@.take(i + 1));
                assert(es.drop_last() =~= spec_entries(entries@.take(i as int)));
                assert(es.last() == entries@[i as int]@);
            }
            i = i + 1;
        }
        assert(entries@.take(entries@.len() as int) =~= entries@);
        out
    }
}

impl SplitByLengthEncoding {
    /// The data being split.
    pub fn data_slice(&self) -> (r: &[u8])
        ensures
            r@ == self.data(),
    {
        self.slice.as_slice()
    }
}

} // verus!
