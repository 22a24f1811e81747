//! Projection with streaming aggregation. Each input row is projected to a
//! list of columns; when some of them aggregate, consecutive rows whose
//! grouping columns are equal are folded into one output row.
use vstd::prelude::*;
use vstd::string::StringSliceAdditionalSpecFns;
use crate::entry_fields::{EntryFields, spec_values};
use crate::errors::{DBResult, DatabaseError, QueryError};
use crate::field::{FieldValue, ObjectField, spec_field_cmp, spec_is_nan};
use crate::log_entry::{Row, RowView};
use crate::operators::DBOperator;

verus! {

/// One output column of a selection, over input column indexes.
#[derive(Debug, Clone, Copy, PartialEq, Eq, Structural)]
pub enum SelectColumn {
    /// A grouping column: passed through, and compared between rows.
    Value(usize),
    /// Sum of an integer column over the group.
    Sum(usize),
    /// Largest value of a column over the group.
    Max(usize),
    /// Smallest value of a column over the group.
    Min(usize),
    /// Number of rows in the group.
    Count,
    /// Number of rows in the group whose column is truthy.
    CountWhen(usize),
}

/// Value of one output column while a group is folded.
pub enum SelValue {
    Value(FieldValue),
    Sum(FieldValue),
    Max(FieldValue),
    Min(FieldValue),
    Count(int),
}

/// Whether a field counts as true: a true bool, a non-zero number or id, a
/// non-empty byte string or string.
pub open spec fn spec_truthy(v: FieldValue) -> bool {
    match v {
        FieldValue::Bool(b) => b,
        FieldValue::I32(x) => x != 0,
        FieldValue::I64(x) => x != 0,
        FieldValue::Decimal(bits) => !spec_is_nan(bits) && bits % 0x8000_0000_0000_0000 != 0,
        FieldValue::Id(u) => u != 0,
        FieldValue::Bytes(b) => b.len() > 0,
        FieldValue::String(s) => vstd::utf8::encode_utf8(s).len() > 0,
    }
}

/// The input column a selection column reads, if any.
pub open spec fn spec_source(c: SelectColumn) -> Option<usize> {
    match c {
        SelectColumn::Value(i) => Some(i),
        SelectColumn::Sum(i) => Some(i),
        SelectColumn::Max(i) => Some(i),
        SelectColumn::Min(i) => Some(i),
        SelectColumn::Count => None,
        SelectColumn::CountWhen(i) => Some(i),
    }
}

/// Every column the selection reads exists in `fields`.
pub open spec fn spec_projectable(cols: Seq<SelectColumn>, fields: Seq<FieldValue>) -> bool {
    forall|j: int| 0 <= j < cols.len() ==> (#[trigger] spec_source(cols[j]) matches Some(i) ==> i < fields.len())
}

pub open spec fn spec_project_one(c: SelectColumn, fields: Seq<FieldValue>) -> SelValue {
    match c {
        SelectColumn::Value(i) => SelValue::Value(fields[i as int]),
        SelectColumn::Sum(i) => SelValue::Sum(fields[i as int]),
        SelectColumn::Max(i) => SelValue::Max(fields[i as int]),
        SelectColumn::Min(i) => SelValue::Min(fields[i as int]),
        SelectColumn::Count => SelValue::Count(1),
        SelectColumn::CountWhen(i) => SelValue::Count(if spec_truthy(fields[i as int]) { 1 } else { 0 }),
    }
}

/// The projection of one row.
pub open spec fn spec_project(cols: Seq<SelectColumn>, fields: Seq<FieldValue>) -> Seq<SelValue> {
    cols.map_values(|c: SelectColumn| spec_project_one(c, fields))
}

/// Two projections belong to one group: their grouping columns are equal.
pub open spec fn spec_same_group(a: Seq<SelValue>, b: Seq<SelValue>) -> bool {
    a.len() == b.len() && forall|i: int| 0 <= i < a.len() ==> match (#[trigger] a[i], b[i]) {
        (SelValue::Value(x), SelValue::Value(y)) => spec_field_cmp(x, y) == 0,
        _ => true,
    }
}

/// Sum of two integer fields of one kind, when it does not overflow.
pub open spec fn spec_sum(a: FieldValue, b: FieldValue) -> Option<FieldValue> {
    match (a, b) {
        (FieldValue::I32(x), FieldValue::I32(y)) => if i32::MIN <= x + y <= i32::MAX {
            Some(FieldValue::I32((x + y) as i32))
        } else {
            None
        },
        (FieldValue::I64(x), FieldValue::I64(y)) => if i64::MIN <= x + y <= i64::MAX {
            Some(FieldValue::I64((x + y) as i64))
        } else {
            None
        },
        _ => None,
    }
}

/// Folds one more projection into a group's column; `None` where the sum
/// cannot be formed or the count overflows.
pub open spec fn spec_fold_one(a: SelValue, b: SelValue) -> Option<SelValue> {
    match (a, b) {
        (SelValue::Value(x), SelValue::Value(_)) => Some(SelValue::Value(x)),
        (SelValue::Sum(x), SelValue::Sum(y)) => match spec_sum(x, y) {
            Some(s) => Some(SelValue::Sum(s)),
            None => None,
        },
        (SelValue::Max(x), SelValue::Max(y)) => Some(SelValue::Max(if spec_field_cmp(x, y) < 0 { y } else { x })),
        (SelValue::Min(x), SelValue::Min(y)) => Some(SelValue::Min(if spec_field_cmp(x, y) > 0 { y } else { x })),
        (SelValue::Count(x), SelValue::Count(y)) => if x + y <= i64::MAX {
            Some(SelValue::Count(x + y))
        } else {
            None
        },
        _ => None,
    }
}

/// Whether every column of two projections folds.
pub open spec fn spec_foldable(a: Seq<SelValue>, b: Seq<SelValue>) -> bool {
    a.len() == b.len() && forall|i: int| 0 <= i < a.len() ==> (#[trigger] spec_fold_one(a[i], b[i])) is Some
}

pub open spec fn spec_fold(a: Seq<SelValue>, b: Seq<SelValue>) -> Seq<SelValue> {
    Seq::new(a.len(), |i: int| spec_fold_one(a[i], b[i]).unwrap())
}

pub open spec fn spec_output_one(v: SelValue) -> FieldValue {
    match v {
        SelValue::Value(x) => x,
        SelValue::Sum(x) => x,
        SelValue::Max(x) => x,
        SelValue::Min(x) => x,
        SelValue::Count(n) => FieldValue::I64(n as i64),
    }
}

/// The output row of a group, under the id of the group's first row.
pub open spec fn spec_output(id: u128, a: Seq<SelValue>) -> RowView {
    RowView { id, fields: a.map_values(|v: SelValue| spec_output_one(v)) }
}

/// Whether every column is a grouping column.
pub open spec fn spec_plain(cols: Seq<SelectColumn>) -> bool {
    forall|j: int| 0 <= j < cols.len() ==> #[trigger] cols[j] is Value
}

/// Output rows of a selection over `rows`, with the group folded so far.
pub open spec fn spec_select(cols: Seq<SelectColumn>, rows: Seq<RowView>, acc: Option<(u128, Seq<SelValue>)>) -> Seq<RowView>
    decreases rows.len(),
{
    if rows.len() == 0 {
        match acc {
            None => seq![],
            Some((id, a)) => seq![spec_output(id, a)],
        }
    } else {
        let p = spec_project(cols, rows[0].fields);
        let rest = rows.drop_first();
        if spec_plain(cols) {
            seq![spec_output(rows[0].id, p)] + spec_select(cols, rest, None)
        } else {
            match acc {
                None => spec_select(cols, rest, Some((rows[0].id, p))),
                Some((id, a)) => if spec_same_group(a, p) {
                    spec_select(cols, rest, Some((id, spec_fold(a, p))))
                } else {
                    seq![spec_output(id, a)] + spec_select(cols, rest, Some((rows[0].id, p)))
                },
            }
        }
    }
}

/// A selection over `rows` goes through without error: every row has the
/// columns it reads, every group folds (integer sums without overflow), and
/// every output row fits in a row.
pub open spec fn spec_select_ok(cols: Seq<SelectColumn>, rows: Seq<RowView>, acc: Option<(u128, Seq<SelValue>)>) -> bool
    decreases rows.len(),
{
    if rows.len() == 0 {
        match acc {
            None => true,
            Some((id, a)) => crate::entry_fields::spec_row_fits(spec_output(id, a).fields),
        }
    } else {
        let p = spec_project(cols, rows[0].fields);
        let rest = rows.drop_first();
        spec_projectable(cols, rows[0].fields) && if spec_plain(cols) {
            crate::entry_fields::spec_row_fits(spec_output(rows[0].id, p).fields) && spec_select_ok(cols, rest, None)
        } else {
            match acc {
                None => spec_select_ok(cols, rest, Some((rows[0].id, p))),
                Some((id, a)) => if spec_same_group(a, p) {
                    spec_foldable(a, p) && spec_select_ok(cols, rest, Some((id, spec_fold(a, p))))
                } else {
                    crate::entry_fields::spec_row_fits(spec_output(id, a).fields)
                        && spec_select_ok(cols, rest, Some((rows[0].id, p)))
                },
            }
        }
    }
}

/// Builds the column list of a selection.
pub struct SelectBuilder {
    pub columns: Vec<SelectColumn>,
}

impl SelectBuilder {
    pub fn new() -> (r: SelectBuilder)
        ensures
            r.columns@.len() == 0,
    {
        SelectBuilder { columns: Vec::new() }
    }

    /// Adds grouping column `index`.
    pub fn value(self, index: usize) -> (r: SelectBuilder)
        ensures
            r.columns@ == self.columns@.push(SelectColumn::Value(index)),
    {
        let mut columns = self.columns;
        columns.push(SelectColumn::Value(index));
        SelectBuilder { columns }
    }

    /// Adds grouping column `index` (the same as `value`).
    pub fn column(self, index: usize) -> (r: SelectBuilder)
        ensures
            r.columns@ == self.columns@.push(SelectColumn::Value(index)),
    {
        self.value(index)
    }

    pub fn sum_value(self, index: usize) -> (r: SelectBuilder)
        ensures
            r.columns@ == self.columns@.push(SelectColumn::Sum(index)),
    {
        let mut columns = self.columns;
        columns.push(SelectColumn::Sum(index));
        SelectBuilder { columns }
    }

    pub fn max_value(self, index: usize) -> (r: SelectBuilder)
        ensures
            r.columns@ == self.columns@.push(SelectColumn::Max(index)),
    {
        let mut columns = self.columns;
        columns.push(SelectColumn::Max(index));
        SelectBuilder { columns }
    }

    pub fn min_value(self, index: usize) -> (r: SelectBuilder)
        ensures
            r.columns@ == self.columns@.push(SelectColumn::Min(index)),
    {
        let mut columns = self.columns;
        columns.push(SelectColumn::Min(index));
        SelectBuilder { columns }
    }

    pub fn count(self) -> (r: SelectBuilder)
        ensures
            r.columns@ == self.columns@.push(SelectColumn::Count),
    {
        let mut columns = self.columns;
        columns.push(SelectColumn::Count);
        SelectBuilder { columns }
    }

    pub fn count_when(self, index: usize) -> (r: SelectBuilder)
        ensures
            r.columns@ == self.columns@.push(SelectColumn::CountWhen(index)),
    {
        let mut columns = self.columns;
        columns.push(SelectColumn::CountWhen(index));
        SelectBuilder { columns }
    }
}

/// Whether a field counts as true.
pub fn truthy(f: &ObjectField) -> (r: bool)
    ensures
        r == spec_truthy(f@),
{
    match f {
        ObjectField::Bool(b) => *b,
        ObjectField::I32(x) => *x != 0,
        ObjectField::I64(x) => *x != 0,
        ObjectField::Decimal(bits) => {
            let exponent = (*bits / 0x10_0000_0000_0000) % 0x800;
            let mantissa = *bits % 0x10_0000_0000_0000;
            let nan = exponent == 0x7ff && mantissa != 0;
            !nan && *bits % 0x8000_0000_0000_0000 != 0
        },
        ObjectField::Id(u) => *u != 0,
        ObjectField::Bytes(b) => b.len() > 0,
        ObjectField::String(s) => s.as_str().as_bytes().len() > 0,
    }
}

/// One output column while a group is folded.
#[derive(Debug)]
pub enum SelectField {
    Field(ObjectField),
    Sum(ObjectField),
    Max(ObjectField),
    Min(ObjectField),
    Count(i64),
}

impl View for SelectField {
    type V = SelValue;

    open spec fn view(&self) -> SelValue {
        match self {
            SelectField::Field(f) => SelValue::Value(f@),
            SelectField::Sum(f) => SelValue::Sum(f@),
            SelectField::Max(f) => SelValue::Max(f@),
            SelectField::Min(f) => SelValue::Min(f@),
            SelectField::Count(n) => SelValue::Count(*n as int),
        }
    }
}

/// Views of a list of output columns.
pub open spec fn spec_sel_values(v: Seq<SelectField>) -> Seq<SelValue> {
    v.map_values(|f: SelectField| f@)
}

/// Counts are never negative.
pub open spec fn spec_counts_ok(v: Seq<SelValue>) -> bool {
    forall|i: int| 0 <= i < v.len() ==> (#[trigger] v[i] matches SelValue::Count(n) ==> n >= 0)
}

impl SelectField {
    /// Whether two output columns belong to one group.
    pub fn groups(a: &SelectField, b: &SelectField) -> (r: bool)
        ensures
            r == match (a@, b@) {
                (SelValue::Value(x), SelValue::Value(y)) => spec_field_cmp(x, y) == 0,
                _ => true,
            },
    {
        match (a, b) {
            (SelectField::Field(x), SelectField::Field(y)) => x.compare(y) == 0,
            _ => true,
        }
    }

    /// Folds `next` into this column; `None` where that is not possible.
    pub fn combine(&self, next: &SelectField) -> (r: Option<SelectField>)
        requires
            self@ matches SelValue::Count(n) ==> n >= 0,
            next@ matches SelValue::Count(n) ==> n >= 0,
        ensures
            r is Some <==> spec_fold_one(self@, next@) is Some,
            r is Some ==> r.unwrap()@ == spec_fold_one(self@, next@).unwrap(),
    {
        match (self, next) {
            (SelectField::Field(x), SelectField::Field(_)) => Some(SelectField::Field(x.clone())),
            (SelectField::Sum(ObjectField::I32(x)), SelectField::Sum(ObjectField::I32(y))) => {
                match x.checked_add(*y) {
                    Some(z) => Some(SelectField::Sum(ObjectField::I32(z))),
                    None => None,
                }
            },
            (SelectField::Sum(ObjectField::I64(x)), SelectField::Sum(ObjectField::I64(y))) => {
                match x.checked_add(*y) {
                    Some(z) => Some(SelectField::Sum(ObjectField::I64(z))),
                    None => None,
                }
            },
            (SelectField::Sum(_), SelectField::Sum(_)) => None,
            (SelectField::Max(x), SelectField::Max(y)) => {
                if x.compare(y) < 0 {
                    Some(SelectField::Max(y.clone()))
                } else {
                    Some(SelectField::Max(x.clone()))
                }
            },
            (SelectField::Min(x), SelectField::Min(y)) => {
                if x.compare(y) > 0 {
                    Some(SelectField::Min(y.clone()))
                } else {
                    Some(SelectField::Min(x.clone()))
                }
            },
            (SelectField::Count(x), SelectField::Count(y)) => {
                if *x <= i64::MAX - *y {
                    Some(SelectField::Count(*x + *y))
                } else {
                    None
                }
            },
            _ => None,
        }
    }

    /// The field this column contributes to an output row.
    pub fn output(&self) -> (r: ObjectField)
        ensures
            r@ == spec_output_one(self@),
    {
        match self {
            SelectField::Field(x) => x.clone(),
            SelectField::Sum(x) => x.clone(),
            SelectField::Max(x) => x.clone(),
            SelectField::Min(x) => x.clone(),
            SelectField::Count(n) => ObjectField::I64(*n),
        }
    }
}

/// Projects one row; `None` when the row lacks a column the selection reads.
pub fn project(cols: &Vec<SelectColumn>, fields: &EntryFields) -> (r: Option<Vec<SelectField>>)
    ensures
        r is Some <==> spec_projectable(cols@, fields@),
        r is Some ==> spec_sel_values(r.unwrap()@) == spec_project(cols@, fields@)
            && spec_counts_ok(spec_sel_values(r.unwrap()@)),
{
    let n = fields.len();
    let mut out: Vec<SelectField> = Vec::new();
    let mut j: usize = 0;
    while j < cols.len()
        invariant
            n == fields@.len(),
            0 <= j <= cols@.len(),
            spec_projectable(cols@.take(j as int), fields@),
            spec_sel_values(out@) == spec_project(cols@.take(j as int), fields@),
            spec_counts_ok(spec_sel_values(out@)),
        decreases cols@.len() - j,
    {
        let c = cols[j];
        let f = match c {
            SelectColumn::Count => SelectField::Count(1),
            SelectColumn::Value(i) | SelectColumn::Sum(i) | SelectColumn::Max(i) | SelectColumn::Min(i)
            | SelectColumn::CountWhen(i) => {
                if i >= n {
                    assert(!spec_projectable(cols@, fields@)) by {
                        assert(spec_source(cols@[j as int]) == Some(i));
                    }
                    return None;
                }
                let v = fields.column(i);
                match c {
                    SelectColumn::Value(_) => SelectField::Field(v),
                    SelectColumn::Sum(_) => SelectField::Sum(v),
                    SelectColumn::Max(_) => SelectField::Max(v),
                    SelectColumn::Min(_) => SelectField::Min(v),
                    _ => SelectField::Count(if truthy(&v) { 1 } else { 0 }),
                }
            },
        };
        let ghost before = out@;
        out.push(f);
        proof {
            assert(cols@.take(j + 1) =~= cols@.take(j as int).push(c));
            assert(spec_sel_values(out@) =~= spec_sel_values(before).push(f@));
            assert(spec_project(cols@.take(j + 1), fields@) =~= spec_project(cols@.take(j as int), fields@).push(spec_project_one(c, fields@)));
            assert forall|k: int| 0 <= k < j + 1 implies (#[trigger] spec_source(cols@.take(j + 1)[k]) matches Some(i) ==> i < fields@.len()) by {
                if k < j {
                    assert(cols@.take(j + 1)[k] == cols@.take(j as int)[k]);
                }
            }
        }
        j = j + 1;
    }
    assert(cols@.take(cols@.len() as int) =~= cols@);
    Some(out)
}

/// Whether two projections belong to one group.
pub fn same_group(a: &Vec<SelectField>, b: &Vec<SelectField>) -> (r: bool)
    ensures
        r == spec_same_group(spec_sel_values(a@), spec_sel_values(b@)),
{
    if a.len() != b.len() {
        return false;
    }
    let mut i: usize = 0;
    while i < a.len()
        invariant
            a@.len() == b@.len(),
            0 <= i <= a@.len(),
            forall|k: int| 0 <= k < i ==> match (#[trigger] spec_sel_values(a@)[k], spec_sel_values(b@)[k]) {
                (SelValue::Value(x), SelValue::Value(y)) => spec_field_cmp(x, y) == 0,
                _ => true,
            },
        decreases a@.len() - i,
    {
        if !SelectField::groups(&a[i], &b[i]) {
            assert(spec_sel_values(a@)[i as int] == a@[i as int]@);
            assert(spec_sel_values(b@)[i as int] == b@[i as int]@);
            return false;
        }
        i = i + 1;
    }
    true
}

/// Folds projection `b` into group `a`; `None` where a column cannot fold.
pub fn fold(a: &Vec<SelectField>, b: &Vec<SelectField>) -> (r: Option<Vec<SelectField>>)
    requires
        a@.len() == b@.len(),
        spec_counts_ok(spec_sel_values(a@)),
        spec_counts_ok(spec_sel_values(b@)),
    ensures
        r is Some <==> spec_foldable(spec_sel_values(a@), spec_sel_values(b@)),
        r is Some ==> spec_sel_values(r.unwrap()@) == spec_fold(spec_sel_values(a@), spec_sel_values(b@))
            && spec_counts_ok(spec_sel_values(r.unwrap()@)),
{
    let ghost va = spec_sel_values(a@);
    let ghost vb = spec_sel_values(b@);
    let mut out: Vec<SelectField> = Vec::new();
    let mut i: usize = 0;
    while i < a.len()
        invariant
            a@.len() == b@.len(),
            va == spec_sel_values(a@),
            vb == spec_sel_values(b@),
            spec_counts_ok(va),
            spec_counts_ok(vb),
            0 <= i <= a@.len(),
            out@.len() == i,
            forall|k: int| 0 <= k < i ==> (#[trigger] spec_fold_one(va[k], vb[k])) is Some
                && out@[k]@ == spec_fold_one(va[k], vb[k]).unwrap(),
            spec_counts_ok(spec_sel_values(out@)),
        decreases a@.len() - i,
    {
        assert(va[i as int] == a@[i as int]@);
        assert(vb[i as int] == b@[i as int]@);
        match a[i].combine(&b[i]) {
            Some(f) => {
                let ghost before = out@;
                out.push(f);
                proof {
                    assert forall|k: int| 0 <= k < out@.len() implies (#[trigger] spec_sel_values(out@)[k] matches SelValue::Count(n) ==> n >= 0) by {
                        if k < i {
                            assert(out@[k] == before[k]);
                            assert(spec_sel_values(before)[k] == before[k]@);
                        } else {
                            assert(va[k] matches SelValue::Count(n) ==> n >= 0);
                            assert(vb[k] matches SelValue::Count(n) ==> n >= 0);
                        }
                    }
                }
            },
            None => {
                return None;
            },
        }
        i = i + 1;
    }
    assert(spec_sel_values(out@) =~= spec_fold(va, vb));
    Some(out)
}

/// The output row of a group.
pub fn output_row(id: u128, a: &Vec<SelectField>) -> (r: Option<Row>)
    ensures
        r is Some <==> crate::entry_fields::spec_row_fits(spec_output(id, spec_sel_values(a@)).fields),
        r is Some ==> r.unwrap()@ == spec_output(id, spec_sel_values(a@)),
{
    let mut fields: Vec<ObjectField> = Vec::new();
    let mut i: usize = 0;
    while i < a.len()
        invariant
            0 <= i <= a@.len(),
            spec_values(fields@) == spec_sel_values(a@).take(i as int).map_values(|v: SelValue| spec_output_one(v)),
        decreases a@.len() - i,
    {
        let f = a[i].output();
        let ghost before = fields@;
        fields.push(f);
        assert(spec_values(fields@) =~= spec_values(before).push(f@));
        assert(spec_sel_values(a@).take(i + 1) =~= spec_sel_values(a@).take(i as int).push(a@[i as int]@));
        assert(spec_values(fields@) =~= spec_sel_values(a@).take(i + 1).map_values(|v: SelValue| spec_output_one(v)));
        i = i + 1;
    }
    assert(spec_sel_values(a@).take(a@.len() as int) =~= spec_sel_values(a@));
    match EntryFields::new(&fields) {
        Some(f) => Some(Row { id, fields: f }),
        None => None,
    }
}

/// Projection with streaming aggregation of consecutive groups. To group
/// across the whole input, sort it by the grouping columns first.
pub struct Select<Iter: DBOperator> {
    iterator: Iter,
    columns: Vec<SelectColumn>,
    plain: bool,
    aggregator: Option<(u128, Vec<SelectField>)>,
}

impl<Iter: DBOperator> Select<Iter> {
    pub fn new(iterator: Iter, selector: SelectBuilder) -> (r: Self)
        requires
            iterator.inv(),
        ensures
            r.inv(),
            r.rest() == spec_select(selector.columns@, iterator.rest(), None),
            r.infallible() == (iterator.infallible() && spec_select_ok(selector.columns@, iterator.rest(), None)),
    {
        let columns = selector.columns;
        let mut plain = true;
        let mut j: usize = 0;
        while j < columns.len()
            invariant
                0 <= j <= columns@.len(),
                plain == (forall|k: int| 0 <= k < j ==> #[trigger] columns@[k] is Value),
            decreases columns@.len() - j,
        {
            match columns[j] {
                SelectColumn::Value(_) => {},
                _ => {
                    plain = false;
                },
            }
            j = j + 1;
        }
        Select { iterator, columns, plain, aggregator: None }
    }

    spec fn acc(&self) -> Option<(u128, Seq<SelValue>)> {
        match self.aggregator {
            Some((id, a)) => Some((id, spec_sel_values(a@))),
            None => None,
        }
    }
}

impl<Iter: DBOperator> DBOperator for Select<Iter> {
    closed spec fn inv(&self) -> bool {
        &&& self.iterator.inv()
        &&& self.plain == spec_plain(self.columns@)
        &&& self.plain ==> self.aggregator is None
        &&& self.aggregator matches Some((_, a)) ==> spec_counts_ok(spec_sel_values(a@))
            && a@.len() == self.columns@.len()
    }

    closed spec fn rest(&self) -> Seq<RowView> {
        spec_select(self.columns@, self.iterator.rest(), self.acc())
    }

    /// The input never fails and the selection over it goes through.
    closed spec fn infallible(&self) -> bool {
        self.iterator.infallible() && spec_select_ok(self.columns@, self.iterator.rest(), self.acc())
    }

    closed spec fn next_ok(&self) -> bool {
        self.infallible()
    }

    fn next(&mut self) -> (r: DBResult<Option<Row>>) {
        loop
            invariant
                self.inv(),
                self.columns@ == old(self).columns@,
                self.rest() == old(self).rest(),
                old(self).infallible() ==> self.infallible(),
            decreases self.iterator.rest().len(),
        {
            let ghost up = self.iterator.rest();
            match self.iterator.next()? {
                Some(row) => {
                    let p = match project(&self.columns, &row.fields) {
                        Some(p) => p,
                        None => {
                            return Err(DatabaseError::Query(QueryError::MissingColumn()));
                        },
                    };
                    assert(up[0] == row@);
                    assert(up.drop_first() == self.iterator.rest());
                    assert(spec_sel_values(p@).len() == p@.len());
                    assert(p@.len() == self.columns@.len());
                    if self.plain {
                        return match output_row(row.id, &p) {
                            Some(r) => Ok(Some(r)),
                            None => Err(DatabaseError::Query(QueryError::TooManyColumns())),
                        };
                    }
                    match self.aggregator.take() {
                        None => {
                            self.aggregator = Some((row.id, p));
                        },
                        Some((id, a)) => {
                            if same_group(&a, &p) {
                                match fold(&a, &p) {
                                    Some(c) => {
                                        assert(spec_sel_values(c@).len() == c@.len());
                                        self.aggregator = Some((id, c));
                                    },
                                    None => {
                                        return Err(DatabaseError::Query(QueryError::Aggregate()));
                                    },
                                }
                            } else {
                                let out = output_row(id, &a);
                                self.aggregator = Some((row.id, p));
                                return match out {
                                    Some(r) => Ok(Some(r)),
                                    None => Err(DatabaseError::Query(QueryError::TooManyColumns())),
                                };
                            }
                        },
                    }
                },
                None => {
                    return match self.aggregator.take() {
                        None => Ok(None),
                        Some((id, a)) => match output_row(id, &a) {
                            Some(r) => Ok(Some(r)),
                            None => Err(DatabaseError::Query(QueryError::TooManyColumns())),
                        },
                    };
                },
            }
        }
    }

    fn duplicate(&self) -> (r: Self) {
        let aggregator = match &self.aggregator {
            Some((id, a)) => Some((*id, clone_fields(a))),
            None => None,
        };
        Select { iterator: self.iterator.duplicate(), columns: self.columns.clone(), plain: self.plain, aggregator }
    }
}

/// A copy of a list of output columns.
fn clone_fields(a: &Vec<SelectField>) -> (r: Vec<SelectField>)
    ensures
        spec_sel_values(r@) == spec_sel_values(a@),
        r@.len() == a@.len(),
{
    let mut r: Vec<SelectField> = Vec::new();
    let mut i: usize = 0;
    while i < a.len()
        invariant
            0 <= i <= a@.len(),
            r@.len() == i,
            forall|k: int| 0 <= k < i ==> (#[trigger] r@[k])@ == a@[k]@,
        decreases a@.len() - i,
    {
        let f = match &a[i] {
            SelectField::Field(x) => SelectField::Field(x.clone()),
            SelectField::Sum(x) => SelectField::Sum(x.clone()),
            SelectField::Max(x) => SelectField::Max(x.clone()),
            SelectField::Min(x) => SelectField::Min(x.clone()),
            SelectField::Count(n) => SelectField::Count(*n),
        };
        r.push(f);
        i = i + 1;
    }
    assert(spec_sel_values(r@) =~= spec_sel_values(a@));
    r
}

} // verus!
