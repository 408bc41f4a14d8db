//! The database container and its persistence wrapper.
//!
//! A [`Database`] maps unique table names to tables; a [`PinnedDatabase`]
//! pairs a database with the filesystem path it is saved to and loaded from.
//! The wrapper only produces and consumes byte vectors — reading and writing
//! the file at that path is the caller's business.

use vstd::prelude::*;
use crate::codec::{
    db_fits, enc_db, enc_str, enc_table, enc_tables, enc_u64, lemma_enc_tables_push, parse_db,
    read_str, read_table, read_u64, write_str, write_table, write_u64,
};
use crate::table::{Table, TableV, table_conforms};
use crate::types::{DbError, DbType, ValueV};

verus! {

/// Mathematical state of a database: its name and its tables, in creation
/// order.
pub struct DatabaseV {
    pub name: Seq<char>,
    pub tables: Seq<TableV>,
}

/// No two tables share a name.
pub open spec fn names_unique(ts: Seq<TableV>) -> bool {
    forall|i: int, j: int|
        0 <= i < j < ts.len() ==> (#[trigger] ts[i]).name != (#[trigger] ts[j]).name
}

/// Table names are unique and every table's rows conform to its schema.
pub open spec fn db_conforms(d: DatabaseV) -> bool {
    &&& names_unique(d.tables)
    &&& forall|i: int| 0 <= i < d.tables.len() ==> table_conforms(#[trigger] d.tables[i])
}

/// Some table in `d` is named `n`.
pub open spec fn has_table(d: DatabaseV, n: Seq<char>) -> bool {
    exists|i: int| 0 <= i < d.tables.len() && (#[trigger] d.tables[i]).name == n
}

/// A named collection of tables with unique names.
#[derive(Debug)]
pub(crate) struct Database {
    pub(crate) name: String,
    pub(crate) tables: Vec<Table>,
}

/// The table views held by a sequence of tables.
pub open spec fn tables_view(ts: Seq<Table>) -> Seq<TableV> {
    Seq::new(ts.len(), |i: int| ts[i]@)
}

impl View for Database {
    type V = DatabaseV;

    closed spec fn view(&self) -> DatabaseV {
        DatabaseV { name: self.name@, tables: tables_view(self.tables@) }
    }
}

impl Clone for Database {
    fn clone(&self) -> (r: Self)
        ensures
            r@ == self@,
    {
        let r = Database { name: self.name.clone(), tables: self.tables.clone() };
        proof {
            assert(r@.tables =~= self@.tables);
        }
        r
    }
}

/// Mathematical state of a persistence wrapper: the database it holds and
/// the path it is bound to.
pub struct WrapperV {
    pub db: DatabaseV,
    pub path: Seq<char>,
}

/// An in-memory database bound to the filesystem path its bytes live at.
#[derive(Debug)]
pub struct PinnedDatabase {
    db: Database,
    path: String,
}

impl View for PinnedDatabase {
    type V = WrapperV;

    closed spec fn view(&self) -> WrapperV {
        WrapperV { db: self.db@, path: self.path@ }
    }
}

impl Clone for PinnedDatabase {
    fn clone(&self) -> (r: Self)
        ensures
            r@ == self@,
    {
        PinnedDatabase { db: self.db.clone(), path: self.path.clone() }
    }
}

/// Round trip: the bytes `save` produces for a database read back as exactly
/// that database — same name, same table sequence, each table with its name,
/// schema and rows in order. Together with the contract of
/// `load_from_bytes`, loading the saved bytes of a well-formed database
/// returns it unchanged: the parse succeeds, its names are unique, and every
/// table validates. The fit condition only asks that each count and byte
/// length fit its 64-bit prefix, which holds of everything a program can
/// hold in memory.
pub proof fn lemma_save_load_round_trip(d: DatabaseV)
    requires
        db_fits(d),
        db_conforms(d),
    ensures
        parse_db(enc_db(d)) == Option::Some(d),
        names_unique(d.tables),
        forall|i: int| 0 <= i < d.tables.len() ==> table_conforms(#[trigger] d.tables[i]),
{
    crate::codec::lemma_parse_enc_db(d);
}

/// Uniqueness: after a table of a fresh name is created, that name is
/// present — so creating it again fails with `TableIsAlreadyPresent` by the
/// contract of `create_table` — and it occurs among the tables exactly once.
pub proof fn lemma_create_table_unique(d: DatabaseV, name: Seq<char>, schema: Seq<DbType>)
    requires
        db_conforms(d),
        !has_table(d, name),
    ensures
        ({
            let t2 = d.tables.push(TableV { name, schema, rows: Seq::empty() });
            &&& has_table(DatabaseV { name: d.name, tables: t2 }, name)
            &&& db_conforms(DatabaseV { name: d.name, tables: t2 })
            &&& forall|i: int| 0 <= i < t2.len() && (#[trigger] t2[i]).name == name ==> i == d.tables.len()
        }),
{
    let t2 = d.tables.push(TableV { name, schema, rows: Seq::empty() });
    assert(t2[d.tables.len() as int].name == name);
    assert forall|i: int| 0 <= i < t2.len() && (#[trigger] t2[i]).name == name implies i
        == d.tables.len() by {
        if i < d.tables.len() {
            assert(d.tables[i].name == name);
        }
    }
    assert(table_conforms(TableV { name, schema, rows: Seq::empty() }));
    assert forall|i: int, j: int| 0 <= i < j < t2.len() implies (#[trigger] t2[i]).name != (
    #[trigger] t2[j]).name by {
        if j == d.tables.len() {
            assert(t2[i] == d.tables[i]);
            assert(d.tables[i].name != name);
        } else {
            assert(t2[i] == d.tables[i]);
            assert(t2[j] == d.tables[j]);
        }
    }
    assert forall|i: int| 0 <= i < t2.len() implies table_conforms(#[trigger] t2[i]) by {
        if i < d.tables.len() {
            assert(t2[i] == d.tables[i]);
        }
    }
    let d2 = DatabaseV { name: d.name, tables: t2 };
    assert(d2.tables[d.tables.len() as int].name == name);
    assert(has_table(d2, name));
    assert(names_unique(d2.tables));
    assert(db_conforms(d2));
}

impl Database {
    /// The position of the table named `n`, when there is one.
    fn find_table(&self, n: &String) -> (r: Option<usize>)
        ensures
            match r {
                Option::Some(i) => i < self@.tables.len() && self@.tables[i as int].name == n@,
                Option::None => !has_table(self@, n@),
            },
    {
        let mut i: usize = 0;
        while i < self.tables.len()
            invariant
                i <= self@.tables.len(),
                forall|q: int| 0 <= q < i ==> (#[trigger] self@.tables[q]).name != n@,
            decreases self@.tables.len() - i,
        {
            if self.tables[i].name_is(n) {
                return Option::Some(i);
            }
            i = i + 1;
        }
        Option::None
    }
}

impl PinnedDatabase {
    /// Table names are unique and every table conforms to its schema.
    pub open spec fn wf(&self) -> bool {
        db_conforms(self@.db)
    }

    /// A fresh, empty database named `name`, bound to `path`. The caller
    /// persists it by writing the bytes of [`PinnedDatabase::save`] to the
    /// path.
    pub fn create(name: String, path: String) -> (w: Self)
        ensures
            w@.db.name == name@,
            w@.db.tables.len() == 0,
            w@.path == path@,
            w.wf(),
    {
        let w = PinnedDatabase { db: Database { name, tables: Vec::new() }, path };
        proof {
            assert(w@.db.tables =~= Seq::<TableV>::empty());
        }
        w
    }

    /// The path this database is bound to.
    pub fn get_path(&self) -> (p: &str)
        ensures
            p@ == self@.path,
    {
        self.path.as_str()
    }

    /// The database's own name.
    pub fn get_name(&self) -> (n: &str)
        ensures
            n@ == self@.db.name,
    {
        self.db.name.as_str()
    }

    /// The names of all tables, in creation order.
    pub fn get_table_names(&self) -> (r: Vec<String>)
        ensures
            r@.len() == self@.db.tables.len(),
            forall|i: int| 0 <= i < r@.len() ==> (#[trigger] r@[i])@ == self@.db.tables[i].name,
    {
        let mut r: Vec<String> = Vec::new();
        let mut i: usize = 0;
        while i < self.db.tables.len()
            invariant
                i <= self@.db.tables.len(),
                r@.len() == i,
                forall|q: int| 0 <= q < i ==> (#[trigger] r@[q])@ == self@.db.tables[q].name,
            decreases self@.db.tables.len() - i,
        {
            let mut n = String::new();
            n.append(self.db.tables[i].get_name());
            r.push(n);
            i = i + 1;
        }
        r
    }

    /// Adds a fresh empty table iff no table of that name exists; otherwise
    /// fails with `TableIsAlreadyPresent` and changes nothing.
    pub fn create_table(&mut self, name: String, schema: Vec<DbType>) -> (r: Result<(), DbError>)
        requires
            old(self).wf(),
        ensures
            final(self)@.db.name == old(self)@.db.name,
            final(self)@.path == old(self)@.path,
            if has_table(old(self)@.db, name@) {
                (r matches Err(e) && e matches DbError::TableIsAlreadyPresent(n) && n@ == name@)
                    && final(self)@ == old(self)@
            } else {
                r is Ok && final(self)@.db.tables == old(self)@.db.tables.push(
                    TableV { name: name@, schema: schema@, rows: Seq::empty() },
                )
            },
            final(self).wf(),
    {
        match self.db.find_table(&name) {
            Option::Some(_) => Err(DbError::TableIsAlreadyPresent(name)),
            Option::None => {
                let ghost before = self@.db.tables;
                let t = Table::new(name, schema);
                self.db.tables.push(t);
                proof {
                    assert(final(self)@.db.tables =~= before.push(t@));
                    assert(t@.rows =~= Seq::<Seq<ValueV>>::empty());
                }
                Ok(())
            },
        }
    }

    /// Removes the table of that name iff present; otherwise fails with
    /// `TableIsMissing` and changes nothing.
    pub fn remove_table(&mut self, name: String) -> (r: Result<(), DbError>)
        requires
            old(self).wf(),
        ensures
            final(self)@.db.name == old(self)@.db.name,
            final(self)@.path == old(self)@.path,
            if has_table(old(self)@.db, name@) {
                r is Ok && exists|i: int|
                    0 <= i < old(self)@.db.tables.len()
                        && (#[trigger] old(self)@.db.tables[i]).name == name@
                        && final(self)@.db.tables == old(self)@.db.tables.remove(i)
            } else {
                (r matches Err(e) && e matches DbError::TableIsMissing(n) && n@ == name@)
                    && final(self)@ == old(self)@
            },
            final(self).wf(),
    {
        match self.db.find_table(&name) {
            Option::Some(i) => {
                let ghost before = self@.db.tables;
                self.db.tables.remove(i);
                proof {
                    assert(final(self)@.db.tables =~= before.remove(i as int));
                }
                Ok(())
            },
            Option::None => Err(DbError::TableIsMissing(name)),
        }
    }

    /// The bytes that persist this database: one self-describing blob
    /// holding its name and all its tables. The caller writes them to the
    /// bound path; the encoding is exactly what `load_from_bytes` reads.
    pub fn save(&self) -> (out: Vec<u8>)
        ensures
            out@ == enc_db(self@.db),
            db_fits(self@.db),
    {
        let mut out: Vec<u8> = Vec::new();
        write_str(&mut out, self.db.name.as_str());
        write_u64(&mut out, self.db.tables.len() as u64);
        let ghost head = enc_str(self@.db.name) + enc_u64(self@.db.tables.len() as u64);
        proof {
            assert(self@.db.tables.subrange(0, 0) =~= Seq::<TableV>::empty());
            assert(out@ =~= head + crate::codec::enc_tables(self@.db.tables.subrange(0, 0)));
        }
        let mut i: usize = 0;
        while i < self.db.tables.len()
            invariant
                i <= self@.db.tables.len(),
                head == enc_str(self@.db.name) + enc_u64(self@.db.tables.len() as u64),
                out@ == head + enc_tables(self@.db.tables.subrange(0, i as int)),
                forall|q: int|
                    0 <= q < i ==> crate::codec::table_fits(#[trigger] self@.db.tables[q]),
            decreases self@.db.tables.len() - i,
        {
            write_table(&mut out, &self.db.tables[i]);
            proof {
                assert(self@.db.tables.subrange(0, i as int).push(self@.db.tables[i as int])
                    =~= self@.db.tables.subrange(0, i + 1 as int));
                lemma_enc_tables_push(
                    self@.db.tables.subrange(0, i as int),
                    self@.db.tables[i as int],
                );
                assert((head + enc_tables(self@.db.tables.subrange(0, i as int))) + enc_table(
                    self@.db.tables[i as int],
                ) =~= head + enc_tables(self@.db.tables.subrange(0, i + 1 as int)));
            }
            i = i + 1;
        }
        proof {
            assert(self@.db.tables.subrange(0, self@.db.tables.len() as int) =~= self@.db.tables);
            assert(out@ =~= enc_db(self@.db));
        }
        out
    }

    /// Rebuilds a database from persisted bytes and binds it to `path`.
    /// Fails with `Serde` when the bytes are no encoding of a database
    /// (malformed data, trailing bytes, or two tables sharing a name), and
    /// with `InvalidTableState`, naming the first offending table, when a
    /// stored row does not conform to its table's schema. A database is
    /// returned only when every table validates.
    #[verifier::loop_isolation(false)]
    pub fn load_from_bytes(path: String, bytes: &[u8]) -> (r: Result<Self, DbError>)
        ensures
            match parse_db(bytes@) {
                Option::Some(d) => if !names_unique(d.tables) {
                    r matches Err(e) && e is Serde
                } else if exists|i: int|
                    0 <= i < d.tables.len() && !table_conforms(#[trigger] d.tables[i]) {
                    r matches Err(e) && e matches DbError::InvalidTableState(n) && exists|i: int|
                        {
                            &&& 0 <= i < d.tables.len()
                            &&& !table_conforms(#[trigger] d.tables[i])
                            &&& forall|j: int| 0 <= j < i ==> table_conforms(#[trigger] d.tables[j])
                            &&& n@ == d.tables[i].name
                        }
                } else {
                    r matches Ok(w) && w@.db == d && w@.path == path@ && w.wf()
                },
                Option::None => r matches Err(e) && e is Serde,
            },
    {
        let total = bytes.len();
        let (name, p1) = match read_str(bytes, 0) {
            Option::Some(x) => x,
            Option::None => {
                return Err(DbError::Serde("the bytes do not start with a database name".to_owned()));
            },
        };
        let (tc, p2) = match read_u64(bytes, p1) {
            Option::Some(x) => x,
            Option::None => {
                return Err(DbError::Serde("the bytes hold no table count".to_owned()));
            },
        };
        let mut tables: Vec<Table> = Vec::new();
        let mut cur = p2;
        let mut i: u64 = 0;
        proof {
            assert(crate::codec::parse_tables(bytes@, p2 as int, tc as int) matches Option::Some(
                (ts, p),
            ) ==> tables_view(tables@) + ts =~= ts);
        }
        while i < tc
            invariant
                i <= tc,
                crate::codec::parse_tables(bytes@, p2 as int, tc as int) == (
                match crate::codec::parse_tables(bytes@, cur as int, tc - i) {
                    Option::Some((ts, p)) => Option::Some((tables_view(tables@) + ts, p)),
                    Option::None => Option::<(Seq<TableV>, int)>::None,
                }),
            decreases tc - i,
        {
            match read_table(bytes, cur) {
                Option::Some((t, p)) => {
                    let ghost prev = tables@;
                    tables.push(t);
                    proof {
                        assert(tables_view(tables@) =~= tables_view(prev) + seq![t@]);
                        assert(crate::codec::parse_tables(bytes@, p as int, tc - i - 1)
                            matches Option::Some((ts2, p2x)) ==> (tables_view(prev) + seq![t@])
                            + ts2 =~= tables_view(prev) + (seq![t@] + ts2));
                    }
                    cur = p;
                    i = i + 1;
                },
                Option::None => {
                    return Err(DbError::Serde("a table could not be read".to_owned()));
                },
            }
        }
        proof {
            assert(tables_view(tables@) + Seq::<TableV>::empty() =~= tables_view(tables@));
        }
        if cur != total {
            return Err(DbError::Serde("the bytes go on past the database".to_owned()));
        }
        let ghost d = parse_db(bytes@)->Some_0;
        proof {
            assert(d == DatabaseV { name: name@, tables: tables_view(tables@) });
        }
        let mut a: usize = 0;
        while a < tables.len()
            invariant
                a <= tables@.len(),
                d.tables == tables_view(tables@),
                forall|x: int, y: int|
                    0 <= x < y < a ==> (#[trigger] d.tables[x]).name != (#[trigger] d.tables[y]).name,
            decreases tables@.len() - a,
        {
            let mut b: usize = 0;
            while b < a
                invariant
                    b <= a < tables@.len(),
                    d.tables == tables_view(tables@),
                    forall|x: int| 0 <= x < b ==> (#[trigger] d.tables[x]).name != d.tables[a as int].name,
                decreases a - b,
            {
                if tables[b].name_is(tables[a].name_string()) {
                    proof {
                        assert(d.tables[b as int].name == d.tables[a as int].name);
                        assert(!names_unique(d.tables));
                    }
                    return Err(DbError::Serde("two tables share a name".to_owned()));
                }
                b = b + 1;
            }
            a = a + 1;
        }
        let mut k: usize = 0;
        while k < tables.len()
            invariant
                k <= tables@.len(),
                d.tables == tables_view(tables@),
                forall|q: int| 0 <= q < k ==> table_conforms(#[trigger] d.tables[q]),
            decreases tables@.len() - k,
        {
            match tables[k].validate_rows() {
                Result::Ok(()) => {},
                Result::Err(e) => {
                    proof {
                        assert(!table_conforms(d.tables[k as int]));
                    }
                    return Err(e);
                },
            }
            k = k + 1;
        }
        let w = PinnedDatabase { db: Database { name, tables }, path };
        proof {
            assert(w@.db == d);
        }
        Ok(w)
    }

    /// A mutable handle on the table of that name, or `TableIsMissing`.
    /// Whatever the caller does through the handle becomes the new state of
    /// that table slot; the rest of the database is untouched.
    pub fn get_table_mut(&mut self, name: String) -> (r: Result<&mut Table, DbError>)
        ensures
            final(self)@.db.name == old(self)@.db.name,
            final(self)@.path == old(self)@.path,
            if has_table(old(self)@.db, name@) {
                r matches Ok(t) && exists|i: int|
                    0 <= i < old(self)@.db.tables.len()
                        && (#[trigger] old(self)@.db.tables[i]).name == name@
                        && (*t)@ == old(self)@.db.tables[i]
                        && final(self)@.db.tables == old(self)@.db.tables.update(
                        i,
                        (*final(t))@,
                    )
            } else {
                (r matches Err(e) && e matches DbError::TableIsMissing(n) && n@ == name@)
                    && final(self)@ == old(self)@
            },
    {
        match self.db.find_table(&name) {
            Option::Some(i) => {
                let t = &mut self.db.tables[i];
                Ok(t)
            },
            Option::None => Err(DbError::TableIsMissing(name)),
        }
    }

    /// A read-only handle on the table of that name, or `TableIsMissing`.
    pub fn get_table(&self, name: String) -> (r: Result<&Table, DbError>)
        ensures
            if has_table(self@.db, name@) {
                r matches Ok(t) && exists|i: int|
                    0 <= i < self@.db.tables.len() && (#[trigger] self@.db.tables[i]).name == name@
                        && t@ == self@.db.tables[i]
            } else {
                (r matches Err(e) && e matches DbError::TableIsMissing(n) && n@ == name@)
            },
    {
        match self.db.find_table(&name) {
            Option::Some(i) => Ok(&self.db.tables[i]),
            Option::None => Err(DbError::TableIsMissing(name)),
        }
    }
}

} // verus!
