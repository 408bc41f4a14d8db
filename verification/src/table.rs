//! A named table: a fixed column schema and an ordered sequence of rows,
//! every row conforming to the schema.

use vstd::prelude::*;
use crate::types::{DbError, DbType, Row, ValueV, schema_of};
use crate::order::{val_le, value_le, lemma_val_le_antisym, lemma_val_le_total, lemma_val_le_trans};

verus! {

/// Mathematical state of a table.
pub struct TableV {
    pub name: Seq<char>,
    pub schema: Seq<DbType>,
    pub rows: Seq<Seq<ValueV>>,
}

/// The sequence of row values held by a sequence of rows.
pub open spec fn rows_view(rs: Seq<Row>) -> Seq<Seq<ValueV>> {
    Seq::new(rs.len(), |i: int| rs[i]@)
}

/// Every row conforms to the schema.
pub open spec fn table_conforms(t: TableV) -> bool {
    forall|i: int| 0 <= i < t.rows.len() ==> schema_of(#[trigger] t.rows[i]) == t.schema
}

/// The column a sorted view orders by: an absent or out-of-range index means
/// none, and the rows keep insertion order.
pub open spec fn effective_key(t: TableV, sort_by: Option<usize>) -> Option<int> {
    match sort_by {
        Option::Some(k) => if (k as int) < t.schema.len() {
            Option::Some(k as int)
        } else {
            Option::None
        },
        Option::None => Option::None,
    }
}

/// `p` holds each index below `n` exactly once.
pub open spec fn is_index_perm(p: Seq<usize>, n: int) -> bool {
    &&& p.len() == n
    &&& (forall|i: int| 0 <= i < p.len() ==> (#[trigger] p[i]) < n)
    &&& (forall|a: int, b: int| 0 <= a < b < p.len() ==> p[a] != p[b])
}

/// The row indices in `p` are ordered ascending by column `k`, the original
/// position breaking ties: rows with equal keys keep their relative order.
pub open spec fn sorted_run(rows: Seq<Seq<ValueV>>, k: int, p: Seq<usize>) -> bool {
    forall|a: int, b: int|
        #![trigger p[a], p[b]]
        0 <= a < b < p.len() ==> {
            &&& val_le(rows[p[a] as int][k], rows[p[b] as int][k])
            &&& (rows[p[a] as int][k] == rows[p[b] as int][k] ==> p[a] < p[b])
        }
}

/// Every index below `n` occurs somewhere in an index run.
proof fn lemma_index_perm_surjective(p: Seq<usize>, n: int, v: int)
    requires
        is_index_perm(p, n),
        0 <= v < n,
    ensures
        exists|b: int| 0 <= b < p.len() && (#[trigger] p[b]) as int == v,
{
    broadcast use vstd::seq_lib::seq_to_set_is_finite;

    let pi = p.map_values(|u: usize| u as int);
    assert(pi.no_duplicates());
    pi.unique_seq_to_set();
    vstd::set_lib::lemma_int_range(0, n);
    assert(pi.to_set().subset_of(vstd::set_lib::set_int_range(0, n))) by {
        assert forall|x: int| pi.to_set().contains(x) implies vstd::set_lib::set_int_range(
            0,
            n,
        ).contains(x) by {
            let idx = choose|idx: int| 0 <= idx < pi.len() && pi[idx] == x;
            assert(p[idx] < n);
        }
    }
    vstd::set_lib::lemma_subset_equality(pi.to_set(), vstd::set_lib::set_int_range(0, n));
    assert(vstd::set_lib::set_int_range(0, n).contains(v));
    assert(pi.to_set().contains(v));
    let b = choose|b: int| 0 <= b < pi.len() && pi[b] == v;
    assert((p[b]) as int == v);
}

/// The first `a` positions of two sorted index runs of the same rows agree.
proof fn lemma_sorted_run_agree(rows: Seq<Seq<ValueV>>, k: int, p: Seq<usize>, q: Seq<usize>, a: int)
    requires
        is_index_perm(p, rows.len() as int),
        is_index_perm(q, rows.len() as int),
        sorted_run(rows, k, p),
        sorted_run(rows, k, q),
        0 <= a <= p.len(),
    ensures
        forall|b: int| 0 <= b < a ==> p[b] == q[b],
    decreases a,
{
    if a > 0 {
        lemma_sorted_run_agree(rows, k, p, q, a - 1);
        let i = p[a - 1];
        let j = q[a - 1];
        if i != j {
            let ki = rows[i as int][k];
            let kj = rows[j as int][k];
            lemma_index_perm_surjective(q, rows.len() as int, i as int);
            let b = choose|b: int| 0 <= b < q.len() && (#[trigger] q[b]) as int == i as int;
            assert(b != a - 1);
            if b < a - 1 {
                assert(q[b] == p[b]);
                assert(false);
            }
            assert(val_le(kj, ki) && (kj == ki ==> j < i));
            lemma_index_perm_surjective(p, rows.len() as int, j as int);
            let c = choose|c: int| 0 <= c < p.len() && (#[trigger] p[c]) as int == j as int;
            assert(c != a - 1);
            if c < a - 1 {
                assert(p[c] == q[c]);
                assert(false);
            }
            assert(val_le(ki, kj) && (ki == kj ==> i < j));
            if ki == kj {
                assert(false);
            } else {
                lemma_val_le_antisym(ki, kj);
                assert(false);
            }
        }
    }
}

/// Determinism of the sorted view: two index runs of the same rows, both
/// ascending by column `k` with the original position breaking ties, are one
/// and the same. The reordering a sorted read performs is therefore pinned
/// exactly by its contract.
pub proof fn lemma_sorted_run_unique(rows: Seq<Seq<ValueV>>, k: int, p: Seq<usize>, q: Seq<usize>)
    requires
        is_index_perm(p, rows.len() as int),
        is_index_perm(q, rows.len() as int),
        sorted_run(rows, k, p),
        sorted_run(rows, k, q),
    ensures
        p == q,
{
    lemma_sorted_run_agree(rows, k, p, q, p.len() as int);
    assert(p =~= q);
}

/// A named, ordered collection of rows with a fixed schema. The schema never
/// changes after construction, and every mutation keeps each stored row
/// conforming to it.
#[derive(Debug)]
pub struct Table {
    name: String,
    rows: Vec<Row>,
    schema: Vec<DbType>,
}

impl View for Table {
    type V = TableV;

    closed spec fn view(&self) -> TableV {
        TableV { name: self.name@, schema: self.schema@, rows: rows_view(self.rows@) }
    }
}

impl Clone for Table {
    fn clone(&self) -> (r: Self)
        ensures
            r@ == self@,
    {
        let r = Table { name: self.name.clone(), rows: self.rows.clone(), schema: self.schema.clone() };
        proof {
            assert(r@.schema =~= self@.schema);
            assert(r@.rows =~= self@.rows);
        }
        r
    }
}

/// Element-wise comparison of two schemas.
pub fn schema_eq(a: &Vec<DbType>, b: &Vec<DbType>) -> (r: bool)
    ensures
        r == (a@ == b@),
{
    if a.len() != b.len() {
        return false;
    }
    let mut i: usize = 0;
    while i < a.len()
        invariant
            i <= a.len(),
            a@.len() == b@.len(),
            forall|q: int| 0 <= q < i ==> a@[q] == b@[q],
        decreases a.len() - i,
    {
        if a[i] != b[i] {
            return false;
        }
        i = i + 1;
    }
    proof {
        assert(a@ =~= b@);
    }
    true
}

impl Table {
    /// A table's rows always conform to its schema.
    pub open spec fn wf(&self) -> bool {
        table_conforms(self@)
    }

    /// A fresh table: the given name and schema, no rows.
    pub fn new(name: String, schema: Vec<DbType>) -> (t: Self)
        ensures
            t@.name == name@,
            t@.schema == schema@,
            t@.rows.len() == 0,
            t.wf(),
    {
        let t = Table { name, rows: Vec::new(), schema };
        proof {
            assert(t@.rows =~= Seq::<Seq<ValueV>>::empty());
        }
        t
    }

    /// Appends `row` at the end iff its schema equals the table's schema;
    /// otherwise fails with `IncorrectRow` and changes nothing.
    pub fn insert_row(&mut self, row: Row) -> (r: Result<(), DbError>)
        requires
            old(self).wf(),
        ensures
            final(self)@.name == old(self)@.name,
            final(self)@.schema == old(self)@.schema,
            if schema_of(row@) == old(self)@.schema {
                r is Ok && final(self)@.rows == old(self)@.rows.push(row@)
            } else {
                (r matches Err(e) && e == DbError::IncorrectRow) && final(self)@ == old(self)@
            },
            final(self).wf(),
    {
        let row_schema = row.schema();
        if schema_eq(&row_schema, &self.schema) {
            let ghost before = self@.rows;
            self.rows.push(row);
            proof {
                assert(final(self)@.rows =~= before.push(row@));
            }
            Ok(())
        } else {
            Err(DbError::IncorrectRow)
        }
    }

    /// Replaces the row at `idx` iff the new row's schema equals the table's
    /// schema and `idx` is in bounds. The schema is checked first, so a
    /// failed update never mutates the table.
    pub fn update_row(&mut self, idx: usize, row: Row) -> (r: Result<(), DbError>)
        requires
            old(self).wf(),
        ensures
            final(self)@.name == old(self)@.name,
            final(self)@.schema == old(self)@.schema,
            if schema_of(row@) != old(self)@.schema {
                (r matches Err(e) && e == DbError::IncorrectRow) && final(self)@ == old(self)@
            } else if idx >= old(self)@.rows.len() {
                (r matches Err(e) && e == DbError::IndexOutOfBounds) && final(self)@ == old(self)@
            } else {
                r is Ok && final(self)@.rows == old(self)@.rows.update(idx as int, row@)
            },
            final(self).wf(),
    {
        let row_schema = row.schema();
        if !schema_eq(&row_schema, &self.schema) {
            Err(DbError::IncorrectRow)
        } else if idx >= self.rows.len() {
            Err(DbError::IndexOutOfBounds)
        } else {
            let ghost before = self@.rows;
            self.rows[idx] = row;
            proof {
                assert(final(self)@.rows =~= before.update(idx as int, row@));
            }
            Ok(())
        }
    }

    /// Removes the row at `idx` when it exists, shifting later rows down by
    /// one; out-of-range indices are a no-op, not an error.
    pub fn remove_row(&mut self, idx: usize)
        requires
            old(self).wf(),
        ensures
            final(self)@.name == old(self)@.name,
            final(self)@.schema == old(self)@.schema,
            if idx < old(self)@.rows.len() {
                final(self)@.rows == old(self)@.rows.remove(idx as int)
            } else {
                final(self)@ == old(self)@
            },
            final(self).wf(),
    {
        if idx < self.rows.len() {
            let ghost before = self@.rows;
            self.rows.remove(idx);
            proof {
                assert(final(self)@.rows =~= before.remove(idx as int));
            }
        }
    }

    /// Succeeds iff every stored row conforms to the schema; otherwise fails
    /// with `InvalidTableState` naming this table. Used after reconstruction
    /// from bytes to catch corruption.
    pub fn validate_rows(&self) -> (r: Result<(), DbError>)
        ensures
            r is Ok <==> self.wf(),
            r matches Err(e) ==> e matches DbError::InvalidTableState(n) && n@ == self@.name,
    {
        let mut i: usize = 0;
        while i < self.rows.len()
            invariant
                i <= self.rows.len(),
                forall|q: int| 0 <= q < i ==> schema_of(#[trigger] self@.rows[q]) == self@.schema,
            decreases self.rows.len() - i,
        {
            let row_schema = self.rows[i].schema();
            if !schema_eq(&row_schema, &self.schema) {
                proof {
                    assert(schema_of(self@.rows[i as int]) != self@.schema);
                }
                return Err(DbError::InvalidTableState(self.name.clone()));
            }
            i = i + 1;
        }
        Ok(())
    }

    /// Whether the row at `j1` sorts at or before the row at `j2` under
    /// column `k`.
    fn key_le(&self, j1: usize, j2: usize, k: usize) -> (r: bool)
        requires
            self.wf(),
            j1 < self@.rows.len(),
            j2 < self@.rows.len(),
            k < self@.schema.len(),
        ensures
            r == val_le(self@.rows[j1 as int][k as int], self@.rows[j2 as int][k as int]),
    {
        proof {
            assert(schema_of(self@.rows[j1 as int]) == self@.schema);
            assert(schema_of(self@.rows[j2 as int]) == self@.schema);
        }
        value_le(&self.rows[j1].0[k], &self.rows[j2].0[k])
    }

    /// Row indices ordered ascending by column `k`, original position
    /// breaking ties: a stable ordering of the rows by that column.
    #[verifier::rlimit(50)]
    fn sorted_indices(&self, k: usize) -> (idxs: Vec<usize>)
        requires
            self.wf(),
            k < self@.schema.len(),
        ensures
            is_index_perm(idxs@, self@.rows.len() as int),
            sorted_run(self@.rows, k as int, idxs@),
    {
        let ghost rows = self@.rows;
        let mut idxs: Vec<usize> = Vec::new();
        let n = self.rows.len();
        let mut i: usize = 0;
        while i < n
            invariant
                self.wf(),
                k < self@.schema.len(),
                n == self@.rows.len(),
                i <= n,
                rows == self@.rows,
                idxs@.len() == i,
                forall|q: int| 0 <= q < i ==> (#[trigger] idxs@[q]) < i,
                forall|a: int, b: int| 0 <= a < b < i ==> idxs@[a] != idxs@[b],
                sorted_run(rows, k as int, idxs@),
            decreases n - i,
        {
            let ghost ki = rows[i as int][k as int];
            let mut pos: usize = 0;
            loop
                invariant
                    self.wf(),
                    k < self@.schema.len(),
                    n == self@.rows.len(),
                    i < n,
                    rows == self@.rows,
                    ki == rows[i as int][k as int],
                    idxs@.len() == i,
                    forall|q: int| 0 <= q < i ==> (#[trigger] idxs@[q]) < i,
                    pos <= i,
                    forall|q: int|
                        0 <= q < pos ==> val_le(
                            rows[(#[trigger] idxs@[q]) as int][k as int],
                            ki,
                        ),
                ensures
                    pos <= i,
                    forall|q: int|
                        0 <= q < pos ==> val_le(
                            rows[(#[trigger] idxs@[q]) as int][k as int],
                            ki,
                        ),
                    pos < i ==> !val_le(rows[idxs@[pos as int] as int][k as int], ki),
                decreases i - pos,
            {
                if pos >= idxs.len() {
                    break;
                }
                let le = self.key_le(idxs[pos], i, k);
                proof {
                    assert(le == val_le(
                        rows[idxs@[pos as int] as int][k as int],
                        rows[i as int][k as int],
                    ));
                }
                if !le {
                    break;
                }
                pos = pos + 1;
            }
            let ghost before = idxs@;
            idxs.insert(pos, i);
            proof {
                before.insert_ensures(pos as int, i);
                let now = before.insert(pos as int, i);
                assert(idxs@ == now);
                // Everything at or past the insertion point sorts strictly
                // after the new row's key.
                assert forall|q: int| pos <= q < before.len() implies val_le(
                    ki,
                    rows[(#[trigger] before[q]) as int][k as int],
                ) && ki != rows[before[q] as int][k as int] by {
                    let kpos = rows[before[pos as int] as int][k as int];
                    let kq = rows[before[q] as int][k as int];
                    lemma_val_le_total(kpos, ki);
                    lemma_val_le_total(ki, ki);
                    if q > pos {
                        lemma_val_le_trans(ki, kpos, kq);
                    }
                }
                assert forall|a: int, b: int|
                    #![trigger now[a], now[b]]
                    0 <= a < b < now.len() implies {
                    &&& val_le(rows[now[a] as int][k as int], rows[now[b] as int][k as int])
                    &&& (rows[now[a] as int][k as int] == rows[now[b] as int][k as int]
                        ==> now[a] < now[b])
                } by {
                    if a < pos {
                        assert(now[a] == before[a]);
                    } else if a == pos {
                        assert(now[a] == i);
                    } else {
                        assert(now[a] == before[a - 1]);
                    }
                    if b < pos {
                        assert(now[b] == before[b]);
                    } else if b == pos {
                        assert(now[b] == i);
                    } else {
                        assert(now[b] == before[b - 1]);
                    }
                }
                assert(sorted_run(rows, k as int, idxs@));
            }
            i = i + 1;
        }
        idxs
    }

    /// The rows reordered for reading: ascending by the value in column
    /// `sort_by` when that names a column, ties keeping insertion order;
    /// plain insertion order when `sort_by` is absent or out of range. The
    /// table itself is left as it is; the result holds copies.
    pub fn get_rows_sorted(&self, sort_by: Option<usize>) -> (res: Vec<Row>)
        requires
            self.wf(),
        ensures
            res@.len() == self@.rows.len(),
            match effective_key(self@, sort_by) {
                Option::None => rows_view(res@) == self@.rows,
                Option::Some(k) => {
                    &&& exists|p: Seq<usize>|
                        {
                            &&& #[trigger] is_index_perm(p, self@.rows.len() as int)
                            &&& sorted_run(self@.rows, k, p)
                            &&& rows_view(res@) == Seq::new(
                                p.len(),
                                |t: int| self@.rows[p[t] as int],
                            )
                        }
                    &&& forall|a: int, b: int|
                        0 <= a < b < res@.len() ==> val_le(
                            #[trigger] rows_view(res@)[a][k],
                            #[trigger] rows_view(res@)[b][k],
                        )
                },
            },
    {
        let use_key: Option<usize> = match sort_by {
            Option::Some(kk) => if kk < self.schema.len() {
                Option::Some(kk)
            } else {
                Option::None
            },
            Option::None => Option::None,
        };
        match use_key {
            Option::None => {
                let mut res: Vec<Row> = Vec::new();
                let mut t: usize = 0;
                while t < self.rows.len()
                    invariant
                        t <= self@.rows.len(),
                        res@.len() == t,
                        forall|q: int| 0 <= q < t ==> (#[trigger] res@[q])@ == self@.rows[q],
                    decreases self@.rows.len() - t,
                {
                    res.push(self.rows[t].clone());
                    t = t + 1;
                }
                proof {
                    assert(rows_view(res@) =~= self@.rows);
                }
                res
            },
            Option::Some(kk) => {
                let idxs = self.sorted_indices(kk);
                let mut res: Vec<Row> = Vec::new();
                let mut t: usize = 0;
                while t < idxs.len()
                    invariant
                        self.wf(),
                        is_index_perm(idxs@, self@.rows.len() as int),
                        sorted_run(self@.rows, kk as int, idxs@),
                        t <= idxs@.len(),
                        res@.len() == t,
                        forall|q: int|
                            0 <= q < t ==> (#[trigger] res@[q])@ == self@.rows[idxs@[q] as int],
                    decreases idxs@.len() - t,
                {
                    res.push(self.rows[idxs[t]].clone());
                    t = t + 1;
                }
                proof {
                    let p = idxs@;
                    assert(rows_view(res@) =~= Seq::new(p.len(), |q: int| self@.rows[p[q] as int]));
                }
                res
            },
        }
    }

    /// Read-only view of the schema.
    pub fn schema(&self) -> (s: &Vec<DbType>)
        ensures
            s@ == self@.schema,
    {
        &self.schema
    }

    /// Read-only view of the rows, in insertion order.
    pub fn rows(&self) -> (rs: &Vec<Row>)
        ensures
            rows_view(rs@) == self@.rows,
    {
        &self.rows
    }

    /// The table's name, as the owned string held inside.
    pub(crate) fn name_string(&self) -> (n: &String)
        ensures
            n@ == self@.name,
    {
        &self.name
    }

    /// Whether this table is named `n`.
    pub fn name_is(&self, n: &String) -> (r: bool)
        ensures
            r == (self@.name == n@),
    {
        self.name == *n
    }

    /// A table rebuilt from its parts, as read back from bytes. The rows are
    /// not checked against the schema here; `validate_rows` does that.
    pub(crate) fn from_parts(name: String, schema: Vec<DbType>, rows: Vec<Row>) -> (t: Self)
        ensures
            t@.name == name@,
            t@.schema == schema@,
            t@.rows == rows_view(rows@),
    {
        Table { name, rows, schema }
    }

    /// The table's name.
    pub fn get_name(&self) -> (n: &str)
        ensures
            n@ == self@.name,
    {
        self.name.as_str()
    }
}

} // verus!
