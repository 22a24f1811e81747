//! Joins: every outer row combined with each inner row whose key column
//! equals the outer row's key column.
use vstd::prelude::*;
use std::collections::HashMap;
use crate::errors::{DBResult, DatabaseError, QueryError};
use crate::field::{FieldValue, spec_field_cmp};
use crate::log_entry::{Row, RowView};
use crate::operators::{DBOperator, collect};

verus! {

broadcast use vstd::std_specs::hash::group_hash_axioms;

/// Whether column `a` of `l` and column `b` of `r` exist and are equal.
pub open spec fn spec_key_match(l: Seq<FieldValue>, r: Seq<FieldValue>, a: int, b: int) -> bool {
    0 <= a < l.len() && 0 <= b < r.len() && spec_field_cmp(l[a], r[b]) == 0
}

/// The row made of `l`'s columns followed by `r`'s, under `l`'s id.
pub open spec fn spec_combined(l: RowView, r: RowView) -> RowView {
    RowView { id: l.id, fields: l.fields + r.fields }
}

/// Every row has at most 255 columns.
pub open spec fn spec_rows_fit(rows: Seq<RowView>) -> bool {
    forall|i: int| 0 <= i < rows.len() ==> (#[trigger] rows[i]).fields.len() <= 255
}

/// `l` combined with each row of `inner` that it matches, in inner order.
pub open spec fn spec_matches(l: RowView, inner: Seq<RowView>, a: int, b: int) -> Seq<RowView>
    decreases inner.len(),
{
    if inner.len() == 0 {
        seq![]
    } else if spec_key_match(l.fields, inner[0].fields, a, b) {
        seq![spec_combined(l, inner[0])] + spec_matches(l, inner.drop_first(), a, b)
    } else {
        spec_matches(l, inner.drop_first(), a, b)
    }
}

/// The join of `outer` with `inner`: the matches of each outer row in turn.
pub open spec fn spec_join(outer: Seq<RowView>, inner: Seq<RowView>, a: int, b: int) -> Seq<RowView>
    decreases outer.len(),
{
    if outer.len() == 0 {
        seq![]
    } else {
        spec_matches(outer[0], inner, a, b) + spec_join(outer.drop_first(), inner, a, b)
    }
}

/// Whether the key columns of two rows exist and are equal.
pub fn key_match(l: &Row, r: &Row, a: usize, b: usize) -> (m: bool)
    ensures
        m == spec_key_match(l@.fields, r@.fields, a as int, b as int),
{
    if a >= l.fields.len() || b >= r.fields.len() {
        return false;
    }
    let x = l.fields.column(a);
    let y = r.fields.column(b);
    x.compare(&y) == 0
}

/// Joins by walking a fresh copy of the inner operator for every outer row.
pub struct NestedLoop<Iter: DBOperator, Iter2: DBOperator> {
    iterator: Iter,
    second_iterator: Iter2,
    first_column: usize,
    second_column: usize,
    current: Option<(Row, Iter2)>,
}

impl<Iter: DBOperator, Iter2: DBOperator> NestedLoop<Iter, Iter2> {
    pub fn new(iterator: Iter, second_iterator: Iter2, first_column: usize, second_column: usize) -> (r: Self)
        requires
            iterator.inv(),
            second_iterator.inv(),
        ensures
            r.inv(),
            r.rest() == spec_join(iterator.rest(), second_iterator.rest(), first_column as int, second_column as int),
            r.infallible() == (iterator.infallible() && second_iterator.infallible() && spec_rows_fit(r.rest())),
    {
        NestedLoop { iterator, second_iterator, first_column, second_column, current: None }
    }

    spec fn inner_left(&self) -> nat {
        match self.current {
            Some((_, it)) => it.rest().len() + 1,
            None => 0,
        }
    }
}

impl<Iter: DBOperator, Iter2: DBOperator> DBOperator for NestedLoop<Iter, Iter2> {
    closed spec fn inv(&self) -> bool {
        &&& self.iterator.inv()
        &&& self.second_iterator.inv()
        &&& self.current matches Some((_, it)) ==> it.inv()
    }

    closed spec fn rest(&self) -> Seq<RowView> {
        let tail = spec_join(self.iterator.rest(), self.second_iterator.rest(), self.first_column as int, self.second_column as int);
        match self.current {
            Some((l, it)) => spec_matches(l@, it.rest(), self.first_column as int, self.second_column as int) + tail,
            None => tail,
        }
    }

    /// Both inputs never fail, and every joined row fits in a row.
    closed spec fn infallible(&self) -> bool {
        &&& self.iterator.infallible()
        &&& self.second_iterator.infallible()
        &&& (self.current matches Some((_, it)) ==> it.infallible())
        &&& spec_rows_fit(self.rest())
    }

    closed spec fn next_ok(&self) -> bool {
        self.infallible()
    }

    fn next(&mut self) -> (r: DBResult<Option<Row>>) {
        loop
            invariant
                self.inv(),
                self.first_column == old(self).first_column,
                self.second_column == old(self).second_column,
                self.rest() == old(self).rest(),
                old(self).infallible() ==> self.infallible(),
            decreases self.iterator.rest().len(), self.inner_left(),
        {
            let a = self.first_column;
            let b = self.second_column;
            let ghost rest0 = self.rest();
            let ghost fits0 = self.infallible();
            match self.current.take() {
                None => {
                    let ghost up = self.iterator.rest();
                    match self.iterator.next()? {
                        None => {
                            return Ok(None);
                        },
                        Some(l) => {
                            let it = self.second_iterator.duplicate();
                            self.current = Some((l, it));
                        },
                    }
                },
                Some((l, mut it)) => {
                    let ghost inner = it.rest();
                    match it.next()? {
                        None => {
                            assert(self.rest() == old(self).rest());
                        },
                        Some(r) => {
                            let m = key_match(&l, &r, a, b);
                            if m {
                                proof {
                                    assert(rest0[0] == spec_combined(l@, r@));
                                    if fits0 {
                                        assert(rest0[0].fields.len() <= 255);
                                    }
                                }
                                match Row::combine(&l, &r) {
                                    Some(c) => {
                                        self.current = Some((l, it));
                                        let ghost t = spec_join(self.iterator.rest(), self.second_iterator.rest(), a as int, b as int);
                                        assert((seq![c@] + spec_matches(l@, inner.drop_first(), a as int, b as int) + t).drop_first()
                                            =~= spec_matches(l@, inner.drop_first(), a as int, b as int) + t);
                                        return Ok(Some(c));
                                    },
                                    None => {
                                        return Err(DatabaseError::Query(QueryError::TooManyColumns()));
                                    },
                                }
                            }
                            self.current = Some((l, it));
                        },
                    }
                },
            }
        }
    }

    fn duplicate(&self) -> (r: Self) {
        let current = match &self.current {
            Some((l, it)) => Some((l.clone(), it.duplicate())),
            None => None,
        };
        NestedLoop {
            iterator: self.iterator.duplicate(),
            second_iterator: self.second_iterator.duplicate(),
            first_column: self.first_column,
            second_column: self.second_column,
            current,
        }
    }
}

/// Rows of `inner` at the indexes `cands`, combined with `l` where they match.
pub open spec fn spec_matches_at(l: RowView, inner: Seq<RowView>, cands: Seq<usize>, a: int, b: int) -> Seq<RowView>
    decreases cands.len(),
{
    if cands.len() == 0 {
        seq![]
    } else {
        let r = inner[cands[0] as int];
        let rest = spec_matches_at(l, inner, cands.drop_first(), a, b);
        if spec_key_match(l.fields, r.fields, a, b) {
            seq![spec_combined(l, r)] + rest
        } else {
            rest
        }
    }
}

/// Indexes in strictly increasing order, all in `[lo, hi)`.
pub open spec fn spec_index_run(cands: Seq<usize>, lo: int, hi: int) -> bool {
    &&& forall|k: int| 0 <= k < cands.len() ==> lo <= #[trigger] cands[k] < hi
    &&& forall|k: int, m: int| 0 <= k < m < cands.len() ==> #[trigger] cands[k] < #[trigger] cands[m]
}

/// Matching `l` against the candidate indexes gives its matches against
/// `inner[j..]`, when every matching row from `j` on is a candidate.
proof fn lemma_matches_by_candidates(l: RowView, inner: Seq<RowView>, cands: Seq<usize>, a: int, b: int, j: int)
    requires
        0 <= j <= inner.len(),
        inner.len() <= usize::MAX,
        spec_index_run(cands, j, inner.len() as int),
        forall|m: int| j <= m < inner.len() && spec_key_match(l.fields, #[trigger] inner[m].fields, a, b)
            ==> cands.contains(m as usize),
    ensures
        spec_matches(l, inner.skip(j), a, b) == spec_matches_at(l, inner, cands, a, b),
    decreases inner.len() - j,
{
    if j == inner.len() {
        assert(inner.skip(j).len() == 0);
        if cands.len() > 0 {
            assert(j <= cands[0] < inner.len());
        }
    } else {
        let s = inner.skip(j);
        assert(s[0] == inner[j]);
        assert(s.drop_first() =~= inner.skip(j + 1));
        if cands.len() > 0 && cands[0] == j {
            let t = cands.drop_first();
            assert forall|k: int| 0 <= k < t.len() implies j + 1 <= #[trigger] t[k] < inner.len() by {
                assert(t[k] == cands[k + 1]);
                assert(cands[0] < cands[k + 1]);
            }
            assert forall|k: int, m: int| 0 <= k < m < t.len() implies #[trigger] t[k] < #[trigger] t[m] by {
                assert(t[k] == cands[k + 1]);
                assert(t[m] == cands[m + 1]);
            }
            assert forall|m: int| j + 1 <= m < inner.len() && spec_key_match(l.fields, #[trigger] inner[m].fields, a, b)
                implies t.contains(m as usize) by {
                assert(cands.contains(m as usize));
                let k = choose|k: int| 0 <= k < cands.len() && cands[k] == m as usize;
                assert((m as usize) as int == m);
                assert(k != 0);
                assert(t[k - 1] == cands[k]);
            }
            lemma_matches_by_candidates(l, inner, t, a, b, j + 1);
        } else {
            assert(!spec_key_match(l.fields, inner[j].fields, a, b)) by {
                if spec_key_match(l.fields, inner[j].fields, a, b) {
                    assert(cands.contains(j as usize));
                    let k = choose|k: int| 0 <= k < cands.len() && cands[k] == j as usize;
                    assert((j as usize) as int == j);
                    if k > 0 {
                        assert(cands[0] < cands[k]);
                    }
                }
            }
            assert forall|k: int| 0 <= k < cands.len() implies j + 1 <= #[trigger] cands[k] < inner.len() by {
                if k > 0 {
                    assert(cands[0] < cands[k]);
                }
            }
            lemma_matches_by_candidates(l, inner, cands, a, b, j + 1);
        }
    }
}

/// Buckets of row indexes by the hash of their key column `b`: each bucket
/// holds, in increasing order, exactly the indexes of the rows among the
/// first `n` that have the key column and whose key hashes there.
pub open spec fn spec_buckets_ok(m: Map<u64, Vec<usize>>, inner: Seq<RowView>, b: int, n: int) -> bool {
    &&& forall|h: u64| #[trigger] m.contains_key(h) ==> spec_index_run(m[h]@, 0, n)
        && forall|k: int| 0 <= k < m[h]@.len() ==> 0 <= b < inner[#[trigger] m[h]@[k] as int].fields.len()
            && crate::operators::hashing::spec_hash_of(inner[m[h]@[k] as int].fields[b]) == h
    &&& forall|i: int| 0 <= i < n && 0 <= b < inner[i].fields.len() ==> ({
        let h = crate::operators::hashing::spec_hash_of(#[trigger] inner[i].fields[b]);
        m.contains_key(h) && m[h]@.contains(i as usize)
    })
}

/// Joins by draining the inner operator once, on the first pull, into a
/// hash table keyed by its key column, then probing it with each outer row.
pub struct HashMatch<Iter: DBOperator, HashedIter: DBOperator> {
    iterator: Iter,
    hashed_iterator: HashedIter,
    first_column: usize,
    second_column: usize,
    inner: Option<(Vec<Row>, HashMap<u64, Vec<usize>>)>,
    current: Option<(Row, Vec<usize>, usize)>,
}

/// Views of a vector of rows.
pub open spec fn spec_rows(v: Seq<Row>) -> Seq<RowView> {
    v.map_values(|x: Row| x@)
}

/// Builds the hash table of the drained inner rows.
fn build_buckets(inner: &Vec<Row>, b: usize) -> (r: HashMap<u64, Vec<usize>>)
    ensures
        spec_buckets_ok(r@, spec_rows(inner@), b as int, inner@.len() as int),
{
    let ghost iv = spec_rows(inner@);
    let mut m: HashMap<u64, Vec<usize>> = HashMap::new();
    let mut i: usize = 0;
    while i < inner.len()
        invariant
            0 <= i <= inner@.len(),
            iv == spec_rows(inner@),
            spec_buckets_ok(m@, iv, b as int, i as int),
        decreases inner@.len() - i,
    {
        if b < inner[i].fields.len() {
            let key = inner[i].fields.column(b);
            let h = crate::operators::hashing::hash_of(&key);
            assert(iv[i as int] == inner@[i as int]@);
            let mut bucket = match m.remove(&h) {
                Some(v) => v,
                None => Vec::new(),
            };
            let ghost old_bucket = bucket@;
            bucket.push(i);
            let ghost before = m@;
            m.insert(h, bucket);
            proof {
                assert forall|hh: u64| #[trigger] m@.contains_key(hh) implies spec_index_run(m@[hh]@, 0, i + 1)
                    && forall|k: int| 0 <= k < m@[hh]@.len() ==> 0 <= b < iv[#[trigger] m@[hh]@[k] as int].fields.len()
                        && crate::operators::hashing::spec_hash_of(iv[m@[hh]@[k] as int].fields[b as int]) == hh by {
                    if hh == h {
                        assert forall|k: int, mm: int| 0 <= k < mm < m@[hh]@.len() implies #[trigger] m@[hh]@[k] < #[trigger] m@[hh]@[mm] by {
                            if mm == m@[hh]@.len() - 1 {
                                assert(m@[hh]@[k] == old_bucket[k]);
                            }
                        }
                    }
                }
                assert forall|j: int| 0 <= j < i + 1 && 0 <= b < iv[j].fields.len() implies ({
                    let hh = crate::operators::hashing::spec_hash_of(#[trigger] iv[j].fields[b as int]);
                    m@.contains_key(hh) && m@[hh]@.contains(j as usize)
                }) by {
                    let hh = crate::operators::hashing::spec_hash_of(iv[j].fields[b as int]);
                    if j == i {
                        assert(m@[h]@[m@[h]@.len() - 1] == i);
                    } else if hh == h {
                        let k = choose|k: int| 0 <= k < old_bucket.len() && old_bucket[k] == j as usize;
                        assert(m@[h]@[k] == j as usize);
                    }
                }
            }
        }
        i = i + 1;
    }
    m
}

impl<Iter: DBOperator, HashedIter: DBOperator> HashMatch<Iter, HashedIter> {
    pub fn new(iterator: Iter, hashed_iterator: HashedIter, first_column: usize, second_column: usize) -> (r: Self)
        requires
            iterator.inv(),
            hashed_iterator.inv(),
        ensures
            r.inv(),
            r.rest() == spec_join(iterator.rest(), hashed_iterator.rest(), first_column as int, second_column as int),
            r.infallible() == (iterator.infallible() && hashed_iterator.infallible() && spec_rows_fit(r.rest())),
    {
        HashMatch { iterator, hashed_iterator, first_column, second_column, inner: None, current: None }
    }

    spec fn inner_left(&self) -> nat {
        match self.current {
            Some((_, c, k)) => (c@.len() - k + 1) as nat,
            None => 0,
        }
    }

    /// The matches of the current outer row that are still to come.
    spec fn current_part(&self) -> Seq<RowView> {
        match (self.inner, self.current) {
            (Some((v, _)), Some((l, c, k))) => spec_matches_at(
                l@,
                spec_rows(v@),
                c@.skip(k as int),
                self.first_column as int,
                self.second_column as int,
            ),
            _ => seq![],
        }
    }
}

impl<Iter: DBOperator, HashedIter: DBOperator> DBOperator for HashMatch<Iter, HashedIter> {
    closed spec fn inv(&self) -> bool {
        &&& self.iterator.inv()
        &&& self.hashed_iterator.inv()
        &&& match (self.inner, self.current) {
            (None, Some(_)) => false,
            (Some((v, m)), cur) => spec_buckets_ok(m@, spec_rows(v@), self.second_column as int, v@.len() as int)
                && (cur matches Some((_, c, k)) ==> k <= c@.len() && spec_index_run(c@, 0, v@.len() as int)),
            _ => true,
        }
    }

    closed spec fn rest(&self) -> Seq<RowView> {
        let a = self.first_column as int;
        let b = self.second_column as int;
        match self.inner {
            None => spec_join(self.iterator.rest(), self.hashed_iterator.rest(), a, b),
            Some((v, _)) => {
                let tail = spec_join(self.iterator.rest(), spec_rows(v@), a, b);
                match self.current {
                    Some((l, c, k)) => spec_matches_at(l@, spec_rows(v@), c@.skip(k as int), a, b) + tail,
                    None => tail,
                }
            },
        }
    }

    /// The outer input never fails, the inner one is drained or never
    /// fails, and every joined row fits in a row.
    closed spec fn infallible(&self) -> bool {
        &&& self.iterator.infallible()
        &&& (self.inner is None ==> self.hashed_iterator.infallible())
        &&& spec_rows_fit(self.rest())
    }

    /// Also without that, the next row is decided when the current outer
    /// row still has a match to come that fits in a row.
    closed spec fn next_ok(&self) -> bool {
        self.infallible() || (self.inner is Some && self.current_part().len() > 0
            && self.rest()[0].fields.len() <= 255)
    }

    fn next(&mut self) -> (r: DBResult<Option<Row>>) {
        if self.inner.is_none() {
            let drained = collect(&mut self.hashed_iterator)?;
            let buckets = build_buckets(&drained, self.second_column);
            self.inner = Some((drained, buckets));
        }
        let ghost local = old(self).next_ok() && !old(self).infallible();
        loop
            invariant
                self.inv(),
                self.inner is Some,
                self.first_column == old(self).first_column,
                self.second_column == old(self).second_column,
                self.rest() == old(self).rest(),
                old(self).infallible() ==> self.infallible(),
                local == (old(self).next_ok() && !old(self).infallible()),
                local ==> self.current_part().len() > 0 && self.rest()[0].fields.len() <= 255,
            decreases self.iterator.rest().len(), self.inner_left(),
        {
            let a = self.first_column;
            let b = self.second_column;
            let (inner, buckets) = match &self.inner {
                Some(p) => (&p.0, &p.1),
                None => {
                    assert(false);
                    return Ok(None);
                },
            };
            let ghost iv = spec_rows(inner@);
            let _n = inner.len();
            let ghost rest0 = self.rest();
            let ghost fits0 = self.infallible();
            let ghost part0 = self.current_part();
            match self.current.take() {
                None => {
                    match self.iterator.next()? {
                        None => {
                            return Ok(None);
                        },
                        Some(l) => {
                            let cands: Vec<usize> = if a < l.fields.len() {
                                let key = l.fields.column(a);
                                let h = crate::operators::hashing::hash_of(&key);
                                match buckets.get(&h) {
                                    Some(c) => c.clone(),
                                    None => Vec::new(),
                                }
                            } else {
                                Vec::new()
                            };
                            proof {
                                assert(spec_index_run(cands@, 0, iv.len() as int));
                                assert forall|m: int| 0 <= m < iv.len() && spec_key_match(l@.fields, #[trigger] iv[m].fields, a as int, b as int)
                                    implies cands@.contains(m as usize) by {
                                    crate::operators::hashing::lemma_equal_fields_same_hash(l@.fields[a as int], iv[m].fields[b as int]);
                                }
                                assert(iv.skip(0) =~= iv);
                                lemma_matches_by_candidates(l@, iv, cands@, a as int, b as int, 0);
                                assert(cands@.skip(0) =~= cands@);
                            }
                            self.current = Some((l, cands, 0));
                        },
                    }
                },
                Some((l, cands, k)) => {
                    if k >= cands.len() {
                        assert(cands@.skip(k as int).len() == 0);
                    } else {
                        let idx = cands[k];
                        proof {
                            assert(cands@.skip(k as int)[0] == cands@[k as int]);
                            assert(cands@.skip(k as int).drop_first() =~= cands@.skip(k + 1));
                            assert(iv[idx as int] == inner@[idx as int]@);
                        }
                        let m = key_match(&l, &inner[idx], a, b);
                        if m {
                            proof {
                                assert(part0[0] == spec_combined(l@, iv[idx as int]));
                                assert(rest0[0] == part0[0]);
                                if fits0 {
                                    assert(rest0[0].fields.len() <= 255);
                                }
                            }
                            match Row::combine(&l, &inner[idx]) {
                                Some(c) => {
                                    self.current = Some((l, cands, k + 1));
                                    proof {
                                        assert(self.rest() =~= rest0.drop_first());
                                        if fits0 {
                                            assert forall|i: int| 0 <= i < self.rest().len()
                                                implies (#[trigger] self.rest()[i]).fields.len() <= 255 by {
                                                assert(self.rest()[i] == rest0[i + 1]);
                                            }
                                        }
                                    }
                                    return Ok(Some(c));
                                },
                                None => {
                                    return Err(DatabaseError::Query(QueryError::TooManyColumns()));
                                },
                            }
                        }
                        self.current = Some((l, cands, k + 1));
                    }
                },
            }
        }
    }

    fn duplicate(&self) -> (r: Self) {
        let inner = match &self.inner {
            Some((v, m)) => Some((clone_rows(v), m.clone())),
            None => None,
        };
        let current = match &self.current {
            Some((l, c, k)) => Some((l.clone(), c.clone(), *k)),
            None => None,
        };
        HashMatch {
            iterator: self.iterator.duplicate(),
            hashed_iterator: self.hashed_iterator.duplicate(),
            first_column: self.first_column,
            second_column: self.second_column,
            inner,
            current,
        }
    }
}

/// A copy of a vector of rows.
pub fn clone_rows(v: &Vec<Row>) -> (r: Vec<Row>)
    ensures
        spec_rows(r@) == spec_rows(v@),
        r@.len() == v@.len(),
{
    let mut r: Vec<Row> = Vec::new();
    let mut i: usize = 0;
    while i < v.len()
        invariant
            0 <= i <= v@.len(),
            spec_rows(r@) == spec_rows(v@.take(i as int)),
            r@.len() == i,
        decreases v@.len() - i,
    {
        let ghost before = r@;
        r.push(v[i].clone());
        assert(r@ == before.push(r@[i as int]));
        assert(spec_rows(r@) =~= spec_rows(before).push(v@[i as int]@));
        assert(spec_rows(r@) =~= spec_rows(v@.take(i + 1)));
        i = i + 1;
    }
    assert(v@.take(v@.len() as int) =~= v@);
    r
}

} // verus!
