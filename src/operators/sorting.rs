//! In-memory sort: drains its input on the first pull and hands the rows
//! out ordered by one key column.
use vstd::prelude::*;
use crate::errors::DBResult;
use crate::field::{FieldValue, spec_field_cmp, spec_bytes_cmp, spec_int_cmp};
use crate::log_entry::{Row, RowView};
use crate::operators::{DBOperator, collect};
use crate::operators::joining::spec_rows;

verus! {

/// Which end of the order comes out first.
#[derive(Debug, Clone, Copy, PartialEq, Eq, Structural)]
pub enum SortDirection {
    /// Smallest key first.
    Ascending,
    /// Largest key first.
    Descending,
}

/// Order of the sort keys of two rows: a row without the key column comes
/// before every row with it.
pub open spec fn spec_key_cmp(a: RowView, b: RowView, col: int) -> int {
    let ha = 0 <= col < a.fields.len();
    let hb = 0 <= col < b.fields.len();
    if ha && hb {
        spec_field_cmp(a.fields[col], b.fields[col])
    } else if ha {
        1
    } else if hb {
        -1
    } else {
        0
    }
}

/// `x` placed into `s` after every row whose key is not larger.
pub open spec fn spec_insert_sorted(x: RowView, s: Seq<RowView>, col: int) -> Seq<RowView>
    decreases s.len(),
{
    if s.len() == 0 {
        seq![x]
    } else if spec_key_cmp(s[0], x, col) > 0 {
        seq![x] + s
    } else {
        seq![s[0]] + spec_insert_sorted(x, s.drop_first(), col)
    }
}

/// The rows in ascending key order; rows with equal keys keep their order.
pub open spec fn spec_sort(rows: Seq<RowView>, col: int) -> Seq<RowView>
    decreases rows.len(),
{
    if rows.len() == 0 {
        seq![]
    } else {
        spec_insert_sorted(rows.last(), spec_sort(rows.drop_last(), col), col)
    }
}

/// Rows in reverse order.
pub open spec fn spec_reversed(s: Seq<RowView>) -> Seq<RowView>
    decreases s.len(),
{
    if s.len() == 0 {
        seq![]
    } else {
        seq![s.last()] + spec_reversed(s.drop_last())
    }
}

/// Each row's key is not larger than the next one's.
pub open spec fn spec_ascending(s: Seq<RowView>, col: int) -> bool {
    forall|i: int| 0 <= i < s.len() - 1 ==> spec_key_cmp(#[trigger] s[i], s[i + 1], col) <= 0
}

proof fn lemma_bytes_cmp_antisym(a: Seq<u8>, b: Seq<u8>)
    ensures
        spec_bytes_cmp(a, b) == -spec_bytes_cmp(b, a),
    decreases a.len(),
{
    if a.len() > 0 && b.len() > 0 && a[0] == b[0] {
        lemma_bytes_cmp_antisym(a.drop_first(), b.drop_first());
    }
}

/// The order of field values is antisymmetric.
pub proof fn lemma_field_cmp_antisym(a: FieldValue, b: FieldValue)
    ensures
        spec_field_cmp(a, b) == -spec_field_cmp(b, a),
{
    match (a, b) {
        (FieldValue::Bytes(x), FieldValue::Bytes(y)) => lemma_bytes_cmp_antisym(x, y),
        (FieldValue::String(x), FieldValue::String(y)) => lemma_bytes_cmp_antisym(
            vstd::utf8::encode_utf8(x),
            vstd::utf8::encode_utf8(y),
        ),
        _ => {},
    }
}

proof fn lemma_key_cmp_antisym(a: RowView, b: RowView, col: int)
    ensures
        spec_key_cmp(a, b, col) == -spec_key_cmp(b, a, col),
{
    if 0 <= col < a.fields.len() && 0 <= col < b.fields.len() {
        lemma_field_cmp_antisym(a.fields[col], b.fields[col]);
    }
}

proof fn lemma_insert_sorted(x: RowView, s: Seq<RowView>, col: int)
    requires
        spec_ascending(s, col),
    ensures
        spec_ascending(spec_insert_sorted(x, s, col), col),
        spec_insert_sorted(x, s, col).len() == s.len() + 1,
        spec_insert_sorted(x, s, col)[0] == x || (s.len() > 0 && spec_insert_sorted(x, s, col)[0] == s[0]),
    decreases s.len(),
{
    if s.len() > 0 {
        if spec_key_cmp(s[0], x, col) > 0 {
            lemma_key_cmp_antisym(s[0], x, col);
            let r = seq![x] + s;
            assert forall|i: int| 0 <= i < r.len() - 1 implies spec_key_cmp(#[trigger] r[i], r[i + 1], col) <= 0 by {
                if i > 0 {
                    assert(r[i] == s[i - 1]);
                    assert(r[i + 1] == s[i]);
                }
            }
        } else {
            let t = s.drop_first();
            assert forall|i: int| 0 <= i < t.len() - 1 implies spec_key_cmp(#[trigger] t[i], t[i + 1], col) <= 0 by {
                assert(t[i] == s[i + 1]);
                assert(t[i + 1] == s[i + 2]);
            }
            lemma_insert_sorted(x, t, col);
            let u = spec_insert_sorted(x, t, col);
            let r = seq![s[0]] + u;
            assert forall|i: int| 0 <= i < r.len() - 1 implies spec_key_cmp(#[trigger] r[i], r[i + 1], col) <= 0 by {
                if i == 0 {
                    if u[0] == x {
                    } else {
                        assert(u[0] == t[0]);
                        assert(t[0] == s[1]);
                    }
                } else {
                    assert(r[i] == u[i - 1]);
                    assert(r[i + 1] == u[i]);
                }
            }
        }
    }
}

/// What the sort produces is in ascending key order.
pub proof fn lemma_sort_ascending(rows: Seq<RowView>, col: int)
    ensures
        spec_ascending(spec_sort(rows, col), col),
        spec_sort(rows, col).len() == rows.len(),
    decreases rows.len(),
{
    if rows.len() > 0 {
        lemma_sort_ascending(rows.drop_last(), col);
        lemma_insert_sorted(rows.last(), spec_sort(rows.drop_last(), col), col);
    }
}

/// Compares the sort keys of two rows.
fn key_cmp(a: &Row, b: &Row, col: usize) -> (r: i8)
    ensures
        r as int == spec_key_cmp(a@, b@, col as int),
{
    let ha = col < a.fields.len();
    let hb = col < b.fields.len();
    if ha && hb {
        let x = a.fields.column(col);
        let y = b.fields.column(col);
        x.compare(&y)
    } else if ha {
        1
    } else if hb {
        -1
    } else {
        0
    }
}

proof fn lemma_insert_at(x: RowView, s: Seq<RowView>, col: int, j: int)
    requires
        0 <= j <= s.len(),
        forall|i: int| 0 <= i < j ==> spec_key_cmp(#[trigger] s[i], x, col) <= 0,
        j == s.len() || spec_key_cmp(s[j], x, col) > 0,
    ensures
        spec_insert_sorted(x, s, col) == s.insert(j, x),
    decreases j,
{
    if j == 0 {
        if s.len() == 0 {
            assert(s.insert(0, x) =~= seq![x]);
        } else {
            assert(s.insert(0, x) =~= seq![x] + s);
        }
    } else {
        let t = s.drop_first();
        assert forall|i: int| 0 <= i < j - 1 implies spec_key_cmp(#[trigger] t[i], x, col) <= 0 by {
            assert(t[i] == s[i + 1]);
        }
        if j - 1 < t.len() {
            assert(t[j - 1] == s[j]);
        }
        lemma_insert_at(x, t, col, j - 1);
        assert(spec_key_cmp(s[0], x, col) <= 0);
        assert(s.insert(j, x) =~= seq![s[0]] + t.insert(j - 1, x));
    }
}

/// Sorts rows by key column `col`, stably.
pub fn sort_rows(rows: &Vec<Row>, col: usize) -> (r: Vec<Row>)
    ensures
        spec_rows(r@) == spec_sort(spec_rows(rows@), col as int),
{
    let ghost all = spec_rows(rows@);
    let mut sorted: Vec<Row> = Vec::new();
    let mut i: usize = 0;
    while i < rows.len()
        invariant
            0 <= i <= rows@.len(),
            all == spec_rows(rows@),
            spec_rows(sorted@) == spec_sort(all.take(i as int), col as int),
        decreases rows@.len() - i,
    {
        let x = rows[i].clone();
        let ghost s = spec_rows(sorted@);
        let mut j: usize = 0;
        while j < sorted.len() && key_cmp(&sorted[j], &x, col) <= 0
            invariant
                0 <= j <= sorted@.len(),
                s == spec_rows(sorted@),
                forall|m: int| 0 <= m < j ==> spec_key_cmp(#[trigger] s[m], x@, col as int) <= 0,
            decreases sorted@.len() - j,
        {
            j = j + 1;
        }
        proof {
            lemma_insert_at(x@, s, col as int, j as int);
            assert(all.take(i + 1).drop_last() =~= all.take(i as int));
            assert(all.take(i + 1).last() == x@);
        }
        sorted.insert(j, x);
        assert(spec_rows(sorted@) =~= s.insert(j as int, x@));
        i = i + 1;
    }
    assert(all.take(rows@.len() as int) =~= all);
    sorted
}

/// Sorts the rows of its input by one key column.
pub struct InMemorySort<Iter: DBOperator> {
    iterator: Iter,
    key_column: usize,
    sort_direction: SortDirection,
    sorted_data: Option<Vec<Row>>,
    lo: usize,
    hi: usize,
}

impl<Iter: DBOperator> InMemorySort<Iter> {
    pub fn new(iterator: Iter, key_column: usize, sort_direction: SortDirection) -> (r: Self)
        requires
            iterator.inv(),
        ensures
            r.inv(),
            r.rest() == (match sort_direction {
                SortDirection::Ascending => spec_sort(iterator.rest(), key_column as int),
                SortDirection::Descending => spec_reversed(spec_sort(iterator.rest(), key_column as int)),
            }),
            r.infallible() == iterator.infallible(),
    {
        InMemorySort { iterator, key_column, sort_direction, sorted_data: None, lo: 0, hi: 0 }
    }
}

impl<Iter: DBOperator> DBOperator for InMemorySort<Iter> {
    closed spec fn inv(&self) -> bool {
        &&& self.iterator.inv()
        &&& self.lo <= self.hi
        &&& self.sorted_data matches Some(v) ==> self.hi <= v@.len()
    }

    closed spec fn rest(&self) -> Seq<RowView> {
        let sorted = match self.sorted_data {
            Some(v) => spec_rows(v@).subrange(self.lo as int, self.hi as int),
            None => spec_sort(self.iterator.rest(), self.key_column as int),
        };
        match self.sort_direction {
            SortDirection::Ascending => sorted,
            SortDirection::Descending => spec_reversed(sorted),
        }
    }

    /// Once the input is drained, rows come from memory and nothing fails.
    closed spec fn infallible(&self) -> bool {
        self.sorted_data is Some || self.iterator.infallible()
    }

    closed spec fn next_ok(&self) -> bool {
        self.infallible()
    }

    fn next(&mut self) -> (r: DBResult<Option<Row>>) {
        if self.sorted_data.is_none() {
            let data = collect(&mut self.iterator)?;
            let sorted = sort_rows(&data, self.key_column);
            self.lo = 0;
            self.hi = sorted.len();
            assert(spec_rows(sorted@).subrange(0, sorted@.len() as int) =~= spec_rows(sorted@));
            self.sorted_data = Some(sorted);
        }
        let v = match &self.sorted_data {
            Some(v) => v,
            None => {
                assert(false);
                return Ok(None);
            },
        };
        if self.lo >= self.hi {
            assert(spec_rows(v@).subrange(self.lo as int, self.hi as int).len() == 0);
            assert(spec_reversed(Seq::<RowView>::empty()) == Seq::<RowView>::empty());
            return Ok(None);
        }
        let ghost sv = spec_rows(v@);
        match self.sort_direction {
            SortDirection::Ascending => {
                let row = v[self.lo].clone();
                assert(sv.subrange(self.lo as int, self.hi as int).drop_first() =~= sv.subrange(self.lo + 1, self.hi as int));
                self.lo = self.lo + 1;
                Ok(Some(row))
            },
            SortDirection::Descending => {
                let row = v[self.hi - 1].clone();
                let ghost sub = sv.subrange(self.lo as int, self.hi as int);
                assert(sub.drop_last() =~= sv.subrange(self.lo as int, self.hi - 1));
                assert(spec_reversed(sub) == seq![sub.last()] + spec_reversed(sub.drop_last()));
                assert((seq![sub.last()] + spec_reversed(sub.drop_last())).drop_first() =~= spec_reversed(sub.drop_last()));
                self.hi = self.hi - 1;
                Ok(Some(row))
            },
        }
    }

    fn duplicate(&self) -> (r: Self) {
        let sorted_data = match &self.sorted_data {
            Some(v) => Some(crate::operators::joining::clone_rows(v)),
            None => None,
        };
        InMemorySort {
            iterator: self.iterator.duplicate(),
            key_column: self.key_column,
            sort_direction: self.sort_direction,
            sorted_data,
            lo: self.lo,
            hi: self.hi,
        }
    }
}

} // verus!
