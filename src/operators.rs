//! The pull-based operator pipeline. Every operator describes the rows it
//! still has to produce as a sequence, and `next` hands out its head.
use vstd::prelude::*;

pub mod linear;
pub mod hashing;
pub mod joining;
pub mod sorting;
pub mod select;
use crate::errors::DBResult;
use crate::log_entry::{Row, RowView};

verus! {

/// An operator of the pipeline.
pub trait DBOperator: Sized {
    /// The operator is in a consistent state.
    spec fn inv(&self) -> bool;

    /// Rows still to come, in order, as long as no error occurs.
    spec fn rest(&self) -> Seq<RowView>;

    /// No call of `next` from this state on can fail: neither this operator
    /// nor any operator it pulls from has an error left to give.
    spec fn infallible(&self) -> bool;

    /// The next call of `next` cannot fail (it holds at least whenever the
    /// operator is infallible, and also in states where the answer is
    /// already decided without pulling from a fallible input).
    spec fn next_ok(&self) -> bool;

    /// The next row; `Ok(None)` once the rows are used up. An error aborts
    /// the pipeline.
    fn next(&mut self) -> (r: DBResult<Option<Row>>)
        requires
            old(self).inv(),
        ensures
            final(self).inv(),
            old(self).infallible() ==> old(self).next_ok(),
            old(self).next_ok() ==> r is Ok,
            old(self).infallible() ==> final(self).infallible(),
            r matches Ok(Some(row)) ==> old(self).rest().len() > 0 && row@ == old(self).rest()[0]
                && final(self).rest() == old(self).rest().drop_first(),
            r matches Ok(None) ==> old(self).rest().len() == 0 && final(self).rest().len() == 0,
    ;

    /// An operator in the same state, producing the same rows.
    fn duplicate(&self) -> (r: Self)
        requires
            self.inv(),
        ensures
            r.inv(),
            r.rest() == self.rest(),
            r.infallible() == self.infallible(),
    ;
}

/// Pulls every remaining row.
pub fn collect<Op: DBOperator>(op: &mut Op) -> (r: DBResult<Vec<Row>>)
    requires
        old(op).inv(),
    ensures
        final(op).inv(),
        old(op).infallible() ==> r is Ok,
        r is Ok ==> r.unwrap()@.map_values(|x: Row| x@) == old(op).rest(),
{
    let mut out: Vec<Row> = Vec::new();
    let ghost all = op.rest();
    loop
        invariant
            op.inv(),
            all == old(op).rest(),
            old(op).infallible() ==> op.infallible(),
            out@.map_values(|x: Row| x@) + op.rest() == all,
        decreases op.rest().len(),
    {
        let ghost r0 = op.rest();
        match op.next() {
            Ok(Some(row)) => {
                let ghost before = out@.map_values(|x: Row| x@);
                out.push(row);
                assert(out@.map_values(|x: Row| x@) =~= before.push(row@));
                assert(before.push(row@) + op.rest() =~= before + r0);
            },
            Ok(None) => {
                assert(out@.map_values(|x: Row| x@) + op.rest() =~= out@.map_values(|x: Row| x@));
                return Ok(out);
            },
            Err(e) => {
                return Err(e);
            },
        }
    }
}

} // verus!
