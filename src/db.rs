use vstd::prelude::*;
use indexmap::IndexMap;
use crate::record::{Record, Row, extend_row, lookup, upsert};
use crate::schema::{schema_contains_key, schema_entries, schema_has};
use crate::table::{Table, TableView, add_seq, add_spec, empty_generic, lemma_add_seq_stops, view_wf};
use crate::value::{TableError, Value, ValueType, ValueView};

verus! {

/// Errors raised by the operations on a database.
#[derive(Clone, Copy, Debug, PartialEq, Eq, Structural)]
pub enum DBError {
    InvalidTable,
    TableError(TableError),
    ForeignTableIsEmpty,
    InvalidForeignKey,
}

impl From<TableError> for DBError {
    fn from(table_error: TableError) -> (r: DBError) {
        DBError::TableError(table_error)
    }
}

impl vstd::std_specs::convert::FromSpecImpl<TableError> for DBError {
    open spec fn obeys_from_spec() -> bool {
        true
    }

    open spec fn from_spec(table_error: TableError) -> DBError {
        DBError::TableError(table_error)
    }
}

/// The content of a database: its tables under their names, in the order in
/// which each name was first added.
pub type DBView = Seq<(Seq<char>, TableView)>;

pub open spec fn names_unique(d: DBView) -> bool {
    forall|i: int, j: int| 0 <= i < j < d.len() ==> d[i].0 != d[j].0
}

pub open spec fn has_table(d: DBView, k: Seq<char>) -> bool {
    exists|i: int| 0 <= i < d.len() && d[i].0 == k
}

/// The table named `k`, if any.
pub open spec fn table_of(d: DBView, k: Seq<char>) -> Option<TableView> {
    if has_table(d, k) {
        Some(d[choose|i: int| 0 <= i < d.len() && d[i].0 == k].1)
    } else {
        None
    }
}

/// Puts `t` under the name `k`: in place where `k` is present, else appended.
pub open spec fn set_table(d: DBView, k: Seq<char>, t: TableView) -> DBView {
    if has_table(d, k) {
        d.update(choose|i: int| 0 <= i < d.len() && d[i].0 == k, (k, t))
    } else {
        d.push((k, t))
    }
}

pub open spec fn db_wf(d: DBView) -> bool {
    &&& names_unique(d)
    &&& forall|i: int| 0 <= i < d.len() ==> view_wf(#[trigger] d[i].1)
}

/// Folds into `j` every foreign row, in order, whose field `k` holds `v`.
pub open spec fn merge_matches(j: Row, fs: Seq<Row>, k: Seq<char>, v: ValueView) -> Row
    decreases fs.len(),
{
    if fs.len() == 0 {
        j
    } else {
        let j1 = merge_matches(j, fs.drop_last(), k, v);
        if lookup(fs.last(), k) == Some(v) {
            extend_row(j1, fs.last())
        } else {
            j1
        }
    }
}

/// The joined row built from the first `n` fields of `r`: each is copied,
/// and after the key field the matching foreign rows are folded in.
pub open spec fn join_fields(r: Row, fs: Seq<Row>, k: Seq<char>, n: nat) -> Row
    decreases n,
{
    if n == 0 || n > r.len() {
        Seq::empty()
    } else {
        let j = join_fields(r, fs, k, (n - 1) as nat);
        let name = r[n - 1].0;
        let v = r[n - 1].1;
        let j1 = upsert(j, name, v);
        if name == k {
            merge_matches(j1, fs, k, v)
        } else {
            j1
        }
    }
}

pub open spec fn join_row(r: Row, fs: Seq<Row>, k: Seq<char>) -> Row {
    join_fields(r, fs, k, r.len())
}

/// The joined row of each primary row, in order.
pub open spec fn join_rows(rows: Seq<Row>, fs: Seq<Row>, k: Seq<char>) -> Seq<Row>
    decreases rows.len(),
{
    if rows.len() == 0 {
        Seq::empty()
    } else {
        join_rows(rows.drop_last(), fs, k).push(join_row(rows.last(), fs, k))
    }
}

/// The outcome of joining table `p` with table `f` on the field `k`.
pub open spec fn join_spec(d: DBView, p: Seq<char>, f: Seq<char>, k: Seq<char>) -> Result<TableView, DBError> {
    match table_of(d, p) {
        None => Err(DBError::InvalidTable),
        Some(pt) => match table_of(d, f) {
            None => Err(DBError::InvalidTable),
            Some(ft) => match ft.schema {
                None => Err(DBError::ForeignTableIsEmpty),
                Some(s) => if !schema_has(s, k) {
                    Err(DBError::InvalidForeignKey)
                } else {
                    let (t, e) = add_seq(empty_generic(), join_rows(pt.rows, ft.rows, k));
                    match e {
                        None => Ok(t),
                        Some(e) => Err(DBError::TableError(e)),
                    }
                },
            },
        },
    }
}

pub proof fn lemma_table_at(d: DBView, i: int)
    requires
        names_unique(d),
        0 <= i < d.len(),
    ensures
        table_of(d, d[i].0) == Some(d[i].1),
        set_table(d, d[i].0, d[i].1) == d,
{
    assert(has_table(d, d[i].0));
    let c = choose|c: int| 0 <= c < d.len() && d[c].0 == d[i].0;
    assert(c == i);
    assert(d.update(i, (d[i].0, d[i].1)) =~= d);
}

pub proof fn lemma_set_table(d: DBView, k: Seq<char>, t: TableView)
    requires
        db_wf(d),
        view_wf(t),
    ensures
        db_wf(set_table(d, k, t)),
        table_of(set_table(d, k, t), k) == Some(t),
        forall|k2: Seq<char>| k2 != k ==> table_of(#[trigger] set_table(d, k, t), k2) == table_of(d, k2),
{
    let u = set_table(d, k, t);
    let n = if has_table(d, k) {
        choose|i: int| 0 <= i < d.len() && d[i].0 == k
    } else {
        d.len() as int
    };
    assert(u[n].0 == k && u[n].1 == t);
    assert forall|i: int, j: int| 0 <= i < j < u.len() implies u[i].0 != u[j].0 by {
        if i != n && j != n {
            assert(u[i] == d[i] && u[j] == d[j]);
        } else if i == n {
            assert(u[j] == d[j]);
        } else {
            assert(u[i] == d[i]);
        }
    }
    assert forall|i: int| 0 <= i < u.len() implies view_wf(#[trigger] u[i].1) by {
        if i != n {
            assert(u[i] == d[i]);
        }
    }
    lemma_table_at(u, n);
    assert forall|k2: Seq<char>| k2 != k implies table_of(#[trigger] set_table(d, k, t), k2) == table_of(d, k2) by {
        if has_table(d, k2) {
            let j = choose|j: int| 0 <= j < d.len() && d[j].0 == k2;
            assert(u[j] == d[j]);
            lemma_table_at(d, j);
            lemma_table_at(u, j);
        } else if has_table(u, k2) {
            let j = choose|j: int| 0 <= j < u.len() && u[j].0 == k2;
            assert(j != n);
            assert(d[j] == u[j]);
        }
    }
}

/// Each joined row comes from the primary row at the same position.
pub proof fn lemma_join_rows(rows: Seq<Row>, fs: Seq<Row>, k: Seq<char>)
    ensures
        join_rows(rows, fs, k).len() == rows.len(),
        forall|i: int| 0 <= i < rows.len() ==> #[trigger] join_rows(rows, fs, k)[i] == join_row(rows[i], fs, k),
    decreases rows.len(),
{
    if rows.len() > 0 {
        lemma_join_rows(rows.drop_last(), fs, k);
        assert forall|i: int| 0 <= i < rows.len() implies #[trigger] join_rows(rows, fs, k)[i] == join_row(rows[i], fs, k) by {
            if i < rows.len() - 1 {
                assert(rows.drop_last()[i] == rows[i]);
            }
        }
    }
}

/// A run of insertions that meets no refusal appends every row, in order.
pub proof fn lemma_add_seq_appends(t: TableView, rs: Seq<Row>)
    requires
        add_seq(t, rs).1 is None,
    ensures
        add_seq(t, rs).0.rows == t.rows + rs,
    decreases rs.len(),
{
    if rs.len() == 0 {
        assert(t.rows + rs =~= t.rows);
    } else {
        lemma_add_seq_appends(t, rs.drop_last());
        assert(t.rows + rs =~= (t.rows + rs.drop_last()).push(rs.last()));
    }
}

/// A join that succeeds yields exactly one row per primary row, each the
/// joined row of the primary row at the same position.
pub proof fn lemma_join_cardinality(d: DBView, p: Seq<char>, f: Seq<char>, k: Seq<char>)
    requires
        join_spec(d, p, f, k) is Ok,
    ensures
        join_spec(d, p, f, k)->Ok_0.rows.len() == table_of(d, p)->Some_0.rows.len(),
        forall|i: int| 0 <= i < table_of(d, p)->Some_0.rows.len() ==> #[trigger] join_spec(d, p, f, k)->Ok_0.rows[i]
            == join_row(table_of(d, p)->Some_0.rows[i], table_of(d, f)->Some_0.rows, k),
{
    let pt = table_of(d, p)->Some_0;
    let ft = table_of(d, f)->Some_0;
    let js = join_rows(pt.rows, ft.rows, k);
    lemma_join_rows(pt.rows, ft.rows, k);
    lemma_add_seq_appends(empty_generic(), js);
    assert(empty_generic().rows + js =~= js);
}

/// A database: named tables.
pub struct DB {
    tables: Vec<(String, Table)>,
}

impl View for DB {
    type V = DBView;

    closed spec fn view(&self) -> DBView {
        self.tables@.map_values(|p: (String, Table)| (p.0@, p.1@))
    }
}

impl DB {
    pub open spec fn wf(&self) -> bool {
        db_wf(self@)
    }

    pub fn new() -> (r: DB)
        ensures
            r@ == Seq::<(Seq<char>, TableView)>::empty(),
            r.wf(),
    {
        let r = DB { tables: Vec::new() };
        assert(r@ =~= Seq::<(Seq<char>, TableView)>::empty());
        r
    }

    /// The position of the table named `name`, if present.
    fn position(&self, name: &str) -> (r: Option<usize>)
        requires
            self.wf(),
        ensures
            match r {
                Some(i) => i < self@.len() && self@[i as int].0 == name@ && table_of(self@, name@)
                    == Some(self@[i as int].1),
                None => !has_table(self@, name@) && table_of(self@, name@) is None,
            },
    {
        let key = name.to_owned();
        let mut i: usize = 0;
        while i < self.tables.len()
            invariant
                self.wf(),
                i <= self.tables.len(),
                key@ == name@,
                forall|j: int| 0 <= j < i ==> self@[j].0 != name@,
            decreases self.tables.len() - i,
        {
            if self.tables[i].0.eq(&key) {
                proof {
                    lemma_table_at(self@, i as int);
                }
                return Some(i);
            }
            i = i + 1;
        }
        None
    }

    /// Replaces the table at position `i` by the result of `t`.
    fn put(&mut self, i: usize, name: String, table: Table)
        requires
            old(self).wf(),
            i < old(self)@.len(),
            old(self)@[i as int].0 == name@,
            table.wf(),
        ensures
            final(self).wf(),
            final(self)@ == set_table(old(self)@, name@, table@),
    {
        proof {
            lemma_table_at(self@, i as int);
            lemma_set_table(self@, name@, table@);
        }
        let ghost t = table@;
        self.tables.set(i, (name, table));
        assert(self@ =~= old(self)@.update(i as int, (name@, t)));
    }

    /// Adds an empty table with the given schema under `table_name`,
    /// replacing any table of that name.
    pub fn add_table(&mut self, table_name: &str, field_types: IndexMap<String, ValueType>)
        requires
            old(self).wf(),
        ensures
            final(self).wf(),
            final(self)@ == set_table(
                old(self)@,
                table_name@,
                TableView { schema: Some(schema_entries(field_types)), rows: Seq::empty() },
            ),
    {
        let table = Table::new(field_types);
        proof {
            lemma_set_table(self@, table_name@, table@);
        }
        match self.position(table_name) {
            Some(i) => {
                self.put(i, table_name.to_owned(), table);
            },
            None => {
                let ghost t = table@;
                self.tables.push((table_name.to_owned(), table));
                assert(self@ =~= old(self)@.push((table_name@, t)));
            },
        }
    }

    pub fn get_table(&self, table_name: &str) -> (r: Option<&Table>)
        requires
            self.wf(),
        ensures
            match r {
                Some(t) => table_of(self@, table_name@) == Some(t@) && t.wf(),
                None => table_of(self@, table_name@) is None,
            },
    {
        match self.position(table_name) {
            Some(i) => Some(&self.tables[i].1),
            None => None,
        }
    }

    /// Takes the table at position `i` out, leaving the others in place.
    fn take(&mut self, i: usize) -> (r: (String, Table))
        requires
            old(self).wf(),
            i < old(self)@.len(),
        ensures
            final(self).tables@ == old(self).tables@.remove(i as int),
            r.0@ == old(self)@[i as int].0,
            r.1@ == old(self)@[i as int].1,
            r.1.wf(),
    {
        assert(view_wf(self@[i as int].1));
        self.tables.remove(i)
    }

    /// Puts `table` back at position `i` under `name`.
    fn restore(&mut self, i: usize, name: String, table: Table)
        requires
            i <= old(self).tables@.len(),
        ensures
            final(self).tables@ == old(self).tables@.insert(i as int, (name, table)),
    {
        self.tables.insert(i, (name, table));
    }

    /// Inserts `record` into the table named `table_name`.
    pub fn add_record(&mut self, table_name: &str, record: Record) -> (r: Result<(), DBError>)
        requires
            old(self).wf(),
            record.wf(),
        ensures
            final(self).wf(),
            match table_of(old(self)@, table_name@) {
                None => r == Err::<(), DBError>(DBError::InvalidTable) && final(self)@ == old(self)@,
                Some(t) => match add_spec(t, record@) {
                    Ok(t2) => r is Ok && final(self)@ == set_table(old(self)@, table_name@, t2),
                    Err(e) => r == Err::<(), DBError>(DBError::TableError(e)) && final(self)@ == old(self)@,
                },
            },
    {
        let i = match self.position(table_name) {
            None => {
                return Err(DBError::InvalidTable);
            },
            Some(i) => i,
        };
        let ghost tables0 = self.tables@;
        let (name, mut table) = self.take(i);
        let res = table.add_record(record);
        proof {
            lemma_set_table(old(self)@, table_name@, table@);
            lemma_table_at(old(self)@, i as int);
        }
        let ghost t = table@;
        self.restore(i, name, table);
        assert(self.tables@ =~= tables0.remove(i as int).insert(i as int, self.tables@[i as int]));
        assert(self@ =~= old(self)@.update(i as int, (table_name@, t)));
        match res {
            Ok(()) => Ok(()),
            Err(e) => Err(DBError::TableError(e)),
        }
    }

    /// Inserts `records` in order into the table named `table_name`,
    /// stopping at the first refusal.
    pub fn add_records(&mut self, table_name: &str, records: Vec<Record>) -> (r: Result<(), DBError>)
        requires
            old(self).wf(),
            forall|i: int| 0 <= i < records@.len() ==> (#[trigger] records@[i]).wf(),
        ensures
            final(self).wf(),
            match table_of(old(self)@, table_name@) {
                None => r == Err::<(), DBError>(DBError::InvalidTable) && final(self)@ == old(self)@,
                Some(t) => final(self)@ == set_table(
                    old(self)@,
                    table_name@,
                    add_seq(t, crate::table::rows_of(records@)).0,
                ) && match add_seq(t, crate::table::rows_of(records@)).1 {
                    None => r is Ok,
                    Some(e) => r == Err::<(), DBError>(DBError::TableError(e)),
                },
            },
    {
        let i = match self.position(table_name) {
            None => {
                return Err(DBError::InvalidTable);
            },
            Some(i) => i,
        };
        let ghost tables0 = self.tables@;
        let (name, mut table) = self.take(i);
        let res = table.add_records(records);
        proof {
            lemma_set_table(old(self)@, table_name@, table@);
            lemma_table_at(old(self)@, i as int);
        }
        let ghost t = table@;
        self.restore(i, name, table);
        assert(self@ =~= old(self)@.update(i as int, (table_name@, t)));
        match res {
            Ok(()) => Ok(()),
            Err(e) => Err(DBError::TableError(e)),
        }
    }

    /// Joins the table `primary_table_name` with `foreign_table_name` on the
    /// field `foreign_key`: one output row per primary row, holding its
    /// fields and, after the key field, those of every foreign row whose key
    /// equals it. The output table adopts its schema from its first row.
    pub fn join_tables(
        &self,
        primary_table_name: &str,
        foreign_table_name: &str,
        foreign_key: &str,
    ) -> (r: Result<Table, DBError>)
        requires
            self.wf(),
        ensures
            match join_spec(self@, primary_table_name@, foreign_table_name@, foreign_key@) {
                Ok(t) => r is Ok && r->Ok_0@ == t && r->Ok_0.wf(),
                Err(e) => r == Err::<Table, DBError>(e),
            },
    {
        let primary_table = match self.get_table(primary_table_name) {
            None => {
                return Err(DBError::InvalidTable);
            },
            Some(t) => t,
        };
        let foreign_table = match self.get_table(foreign_table_name) {
            None => {
                return Err(DBError::InvalidTable);
            },
            Some(t) => t,
        };
        let foreign_field_types = match foreign_table.field_types() {
            None => {
                return Err(DBError::ForeignTableIsEmpty);
            },
            Some(m) => m,
        };
        if !schema_contains_key(foreign_field_types, foreign_key) {
            return Err(DBError::InvalidForeignKey);
        }
        let key = foreign_key.to_owned();
        let ghost k = foreign_key@;
        let ghost prows = primary_table@.rows;
        let ghost frows = foreign_table@.rows;
        let ghost js = join_rows(prows, frows, k);
        proof {
            lemma_join_rows(prows, frows, k);
        }
        let primary_records = primary_table.iter();
        let foreign_records = foreign_table.iter();
        let mut joined_table = Table::new_generic();
        assert(js.take(0) =~= Seq::<Row>::empty());
        let mut i: usize = 0;
        while i < primary_records.len()
            invariant
                key@ == k,
                k == foreign_key@,
                primary_table.wf(),
                foreign_table.wf(),
                prows == primary_table@.rows,
                frows == foreign_table@.rows,
                forall|a: int| 0 <= a < primary_records@.len() ==> (#[trigger] primary_records@[a])@ == prows[a],
                primary_records@.len() == prows.len(),
                forall|a: int| 0 <= a < foreign_records@.len() ==> (#[trigger] foreign_records@[a])@ == frows[a],
                foreign_records@.len() == frows.len(),
                js == join_rows(prows, frows, k),
                js.len() == prows.len(),
                forall|a: int| 0 <= a < prows.len() ==> #[trigger] js[a] == join_row(prows[a], frows, k),
                i <= prows.len(),
                add_seq(empty_generic(), js.take(i as int)) == (joined_table@, None::<TableError>),
                joined_table.wf(),
                table_of(self@, primary_table_name@) == Some(primary_table@),
                table_of(self@, foreign_table_name@) == Some(foreign_table@),
                foreign_table@.schema == Some(schema_entries(*foreign_field_types)),
                schema_has(schema_entries(*foreign_field_types), k),
            decreases primary_records.len() - i,
        {
            let record = &primary_records[i];
            let ghost row = prows[i as int];
            assert(record@ == row);
            assert(view_wf(primary_table@));
            assert(crate::record::keys_unique(row));
            let fields = record.iter();
            assert(fields@.len() == row.len());
            let mut joined_record = Record::new();
            let mut j: usize = 0;
            while j < fields.len()
                invariant
                    key@ == k,
                    k == foreign_key@,
                    foreign_table.wf(),
                    frows == foreign_table@.rows,
                    forall|a: int| 0 <= a < foreign_records@.len() ==> (#[trigger] foreign_records@[a])@ == frows[a],
                    foreign_records@.len() == frows.len(),
                    fields@.map_values(|p: (String, Value)| (p.0@, p.1@)) == row,
                    j <= row.len(),
                    joined_record.wf(),
                    joined_record@ == join_fields(row, frows, k, j as nat),
                decreases fields.len() - j,
            {
                let (name, value) = &fields[j];
                assert(row[j as int] == (name@, value@));
                joined_record.add_field(name.as_str(), value.copy());
                if name.eq(&key) {
                    let ghost j1 = joined_record@;
                    assert(frows.take(0) =~= Seq::<Row>::empty());
                    let mut l: usize = 0;
                    while l < foreign_records.len()
                        invariant
                            key@ == k,
                            k == foreign_key@,
                            frows == foreign_table@.rows,
                            forall|a: int| 0 <= a < foreign_records@.len() ==> (#[trigger] foreign_records@[a])@ == frows[a],
                            foreign_records@.len() == frows.len(),
                            forall|a: int| 0 <= a < frows.len() ==> crate::record::keys_unique(#[trigger] frows[a]),
                            l <= frows.len(),
                            joined_record.wf(),
                            joined_record@ == merge_matches(j1, frows.take(l as int), k, value@),
                        decreases foreign_records.len() - l,
                    {
                        assert(frows.take(l + 1).drop_last() =~= frows.take(l as int));
                        let foreign_record = &foreign_records[l];
                        assert(foreign_record@ == frows[l as int]);
                        assert(crate::record::keys_unique(frows[l as int]));
                        match foreign_record.get_field_as_value(foreign_key) {
                            Some(foreign_value) => {
                                if *foreign_value == *value {
                                    joined_record.extend_fields(foreign_record);
                                }
                            },
                            None => {},
                        }
                        l = l + 1;
                    }
                    assert(frows.take(l as int) =~= frows);
                }
                j = j + 1;
            }
            assert(joined_record@ == js[i as int]);
            assert(js.take(i + 1).drop_last() =~= js.take(i as int));
            assert(js.take(i + 1).last() == js[i as int]);
            let ghost before = joined_table@;
            let res = joined_table.add_record(joined_record);
            proof {
                if res.is_err() {
                    assert(add_seq(empty_generic(), js.take(i + 1)) == (before, Some(res->Err_0)));
                }
            }
            i = i + 1;
            if let Err(e) = res {
                proof {
                    lemma_add_seq_stops(empty_generic(), js, i as nat);
                }
                return Err(DBError::TableError(e));
            }
        }
        assert(js.take(i as int) =~= js);
        Ok(joined_table)
    }

    /// The tables with their names, in the order in which each name was first added.
    pub fn iter(&self) -> (r: &Vec<(String, Table)>)
        ensures
            r@.map_values(|p: (String, Table)| (p.0@, p.1@)) == self@,
    {
        &self.tables
    }
}

} // verus!
