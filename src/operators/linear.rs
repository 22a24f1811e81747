//! Operators that pass rows through one at a time: filtering, taking a
//! prefix, skipping a prefix.
use vstd::prelude::*;
use crate::entry_fields::EntryFields;
use crate::errors::DBResult;
use crate::field::FieldValue;
use crate::log_entry::{Row, RowView};
use crate::operators::DBOperator;

verus! {

/// Whether predicate `p` holds of rows with columns `v`.
pub open spec fn spec_keeps<P: Fn(&EntryFields) -> bool>(p: P, v: Seq<FieldValue>) -> bool {
    exists|f: EntryFields| f@ == v && #[trigger] p.ensures((&f,), true)
}

/// A predicate that can be called on every row and answers by the row's
/// columns alone.
pub open spec fn spec_predicate_ok<P: Fn(&EntryFields) -> bool>(p: P) -> bool {
    &&& forall|f: &EntryFields| #[trigger] p.requires((f,))
    &&& forall|f: &EntryFields, g: &EntryFields, a: bool, b: bool|
        f@ == g@ && #[trigger] p.ensures((f,), a) && #[trigger] p.ensures((g,), b) ==> a == b
}

/// The rows of `rows` that predicate `p` keeps, in order.
pub open spec fn spec_filter_rows<P: Fn(&EntryFields) -> bool>(rows: Seq<RowView>, p: P) -> Seq<RowView>
    decreases rows.len(),
{
    if rows.len() == 0 {
        seq![]
    } else if spec_keeps(p, rows[0].fields) {
        seq![rows[0]] + spec_filter_rows(rows.drop_first(), p)
    } else {
        spec_filter_rows(rows.drop_first(), p)
    }
}

/// Passes on the rows whose columns satisfy a predicate.
pub struct Filter<Iter: DBOperator, Predicate: Fn(&EntryFields) -> bool + Copy> {
    iterator: Iter,
    predicate: Predicate,
}

impl<Iter: DBOperator, Predicate: Fn(&EntryFields) -> bool + Copy> Filter<Iter, Predicate> {
    pub fn new(iterator: Iter, predicate: Predicate) -> (r: Self)
        requires
            iterator.inv(),
            spec_predicate_ok(predicate),
        ensures
            r.inv(),
            r.rest() == spec_filter_rows(iterator.rest(), predicate),
            r.infallible() == iterator.infallible(),
    {
        Filter { iterator, predicate }
    }
}

impl<Iter: DBOperator, Predicate: Fn(&EntryFields) -> bool + Copy> DBOperator for Filter<Iter, Predicate> {
    closed spec fn inv(&self) -> bool {
        self.iterator.inv() && spec_predicate_ok(self.predicate)
    }

    closed spec fn rest(&self) -> Seq<RowView> {
        spec_filter_rows(self.iterator.rest(), self.predicate)
    }

    closed spec fn infallible(&self) -> bool {
        self.iterator.infallible()
    }

    closed spec fn next_ok(&self) -> bool {
        self.infallible()
    }

    fn next(&mut self) -> (r: DBResult<Option<Row>>) {
        loop
            invariant
                self.inv(),
                self.predicate == old(self).predicate,
                self.rest() == old(self).rest(),
                old(self).infallible() ==> self.infallible(),
            decreases self.iterator.rest().len(),
        {
            let ghost up = self.iterator.rest();
            match self.iterator.next()? {
                Some(row) => {
                    let keep = (self.predicate)(&row.fields);
                    assert(up.drop_first() == self.iterator.rest());
                    if keep {
                        return Ok(Some(row));
                    }
                    assert(!spec_keeps(self.predicate, up[0].fields)) by {
                        if spec_keeps(self.predicate, up[0].fields) {
                            let f = choose|f: EntryFields| f@ == up[0].fields && #[trigger] self.predicate.ensures((&f,), true);
                        }
                    }
                },
                None => {
                    return Ok(None);
                },
            }
        }
    }

    fn duplicate(&self) -> (r: Self) {
        Filter { iterator: self.iterator.duplicate(), predicate: self.predicate }
    }
}

/// Passes on at most a given number of rows.
pub struct Take<Iter: DBOperator> {
    iterator: Iter,
    items: usize,
    taken: usize,
}

impl<Iter: DBOperator> Take<Iter> {
    pub fn new(iterator: Iter, items: usize) -> (r: Self)
        requires
            iterator.inv(),
        ensures
            r.inv(),
            r.rest() == iterator.rest().take(
                if items < iterator.rest().len() { items as int } else { iterator.rest().len() as int },
            ),
            r.infallible() == (items == 0 || iterator.infallible()),
    {
        Take { iterator, items, taken: 0 }
    }
}

impl<Iter: DBOperator> DBOperator for Take<Iter> {
    closed spec fn inv(&self) -> bool {
        self.iterator.inv() && self.taken <= self.items
    }

    closed spec fn rest(&self) -> Seq<RowView> {
        let left = self.items - self.taken;
        let up = self.iterator.rest();
        up.take(if left < up.len() { left as int } else { up.len() as int })
    }

    closed spec fn infallible(&self) -> bool {
        self.taken >= self.items || self.iterator.infallible()
    }

    closed spec fn next_ok(&self) -> bool {
        self.infallible()
    }

    fn next(&mut self) -> (r: DBResult<Option<Row>>) {
        if self.taken >= self.items {
            return Ok(None);
        }
        let ghost up = self.iterator.rest();
        match self.iterator.next()? {
            Some(row) => {
                self.taken = self.taken + 1;
                proof {
                    let left = old(self).items - old(self).taken;
                    let n = if left < up.len() { left as int } else { up.len() as int };
                    let m = if left - 1 < up.len() - 1 { left - 1 } else { up.len() - 1 };
                    assert(up.take(n).drop_first() =~= up.drop_first().take(m));
                }
                Ok(Some(row))
            },
            None => Ok(None),
        }
    }

    fn duplicate(&self) -> (r: Self) {
        Take { iterator: self.iterator.duplicate(), items: self.items, taken: self.taken }
    }
}

/// Drops a given number of rows, then passes on the rest.
pub struct Skip<Iter: DBOperator> {
    iterator: Iter,
    items: usize,
    skipped: usize,
}

impl<Iter: DBOperator> Skip<Iter> {
    pub fn new(iterator: Iter, items: usize) -> (r: Self)
        requires
            iterator.inv(),
        ensures
            r.inv(),
            r.rest() == iterator.rest().skip(
                if items < iterator.rest().len() { items as int } else { iterator.rest().len() as int },
            ),
            r.infallible() == iterator.infallible(),
    {
        Skip { iterator, items, skipped: 0 }
    }
}

impl<Iter: DBOperator> DBOperator for Skip<Iter> {
    closed spec fn inv(&self) -> bool {
        self.iterator.inv() && self.skipped <= self.items
    }

    closed spec fn rest(&self) -> Seq<RowView> {
        let left = self.items - self.skipped;
        let up = self.iterator.rest();
        up.skip(if left < up.len() { left as int } else { up.len() as int })
    }

    closed spec fn infallible(&self) -> bool {
        self.iterator.infallible()
    }

    closed spec fn next_ok(&self) -> bool {
        self.infallible()
    }

    fn next(&mut self) -> (r: DBResult<Option<Row>>) {
        loop
            invariant
                self.inv(),
                self.items == old(self).items,
                self.rest() == old(self).rest(),
                old(self).infallible() ==> self.infallible(),
            decreases self.iterator.rest().len(),
        {
            let ghost up = self.iterator.rest();
            match self.iterator.next()? {
                Some(row) => {
                    if self.skipped >= self.items {
                        assert(up.skip(0) =~= up);
                        assert(self.iterator.rest().skip(0) =~= self.iterator.rest());
                        return Ok(Some(row));
                    }
                    let ghost left = self.items - self.skipped;
                    self.skipped = self.skipped + 1;
                    proof {
                        let n = if left < up.len() { left as int } else { up.len() as int };
                        let m = if left - 1 < up.len() - 1 { left - 1 } else { up.len() - 1 };
                        assert(up.skip(n) =~= up.drop_first().skip(m));
                    }
                },
                None => {
                    return Ok(None);
                },
            }
        }
    }

    fn duplicate(&self) -> (r: Self) {
        Skip { iterator: self.iterator.duplicate(), items: self.items, skipped: self.skipped }
    }
}

} // verus!
