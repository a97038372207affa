use vstd::prelude::*;
use indexmap::IndexMap;
use crate::record::{
    Record, Row, has_field, keys_unique, lemma_lookup_at, lemma_upsert, lookup,
    typed_lookup, upsert,
};
use crate::schema::{
    SchemaView, schema_clone, schema_entries, schema_get, schema_get_index, schema_has,
    schema_insert, schema_len, schema_new, schema_type, lemma_schema_type,
};
use crate::compare::{Operator, create_comp_func, holds};
use crate::value::{TableError, ToType, Value, ValueType, ValueView};

verus! {

/// The content of a table: its schema, if it has one yet, and its rows in order.
pub struct TableView {
    pub schema: Option<SchemaView>,
    pub rows: Seq<Row>,
}

pub open spec fn empty_generic() -> TableView {
    TableView { schema: None, rows: Seq::empty() }
}

/// Every schema field is present in `r` with its declared type; other
/// fields of `r` are allowed.
pub open spec fn fits(r: Row, s: SchemaView) -> bool {
    forall|j: int|
        0 <= j < s.len() ==> lookup(r, (#[trigger] s[j]).0) is Some && lookup(r, s[j].0)->Some_0.ty()
            == s[j].1
}

/// The outcome of checking `r` against the schema entries from `i` on, in
/// order: the first entry that is missing or mistyped decides the error.
pub open spec fn check_from(r: Row, s: SchemaView, i: nat) -> Option<TableError>
    decreases s.len() - i,
{
    if i >= s.len() {
        None
    } else {
        match lookup(r, s[i as int].0) {
            None => Some(TableError::IncorrectFieldNames),
            Some(v) => if v.ty() != s[i as int].1 {
                Some(TableError::IncorrectFieldTypes)
            } else {
                check_from(r, s, i + 1)
            },
        }
    }
}

/// The schema that a record gives a table without one: its fields with the
/// types of their values, in the record's order.
pub open spec fn adopt(r: Row) -> SchemaView {
    r.map_values(|p: (Seq<char>, ValueView)| (p.0, p.1.ty()))
}

/// The table after inserting `r`, or the error that refuses it.
pub open spec fn add_spec(t: TableView, r: Row) -> Result<TableView, TableError> {
    match t.schema {
        None => Ok(TableView { schema: Some(adopt(r)), rows: t.rows.push(r) }),
        Some(s) => match check_from(r, s, 0) {
            None => Ok(TableView { schema: t.schema, rows: t.rows.push(r) }),
            Some(e) => Err(e),
        },
    }
}

/// Inserts `rs` in order, stopping at the first refusal: the table as left,
/// and the error if there was one.
pub open spec fn add_seq(t: TableView, rs: Seq<Row>) -> (TableView, Option<TableError>)
    decreases rs.len(),
{
    if rs.len() == 0 {
        (t, None)
    } else {
        let (t1, e) = add_seq(t, rs.drop_last());
        if e is Some {
            (t1, e)
        } else {
            match add_spec(t1, rs.last()) {
                Ok(t2) => (t2, None),
                Err(e2) => (t1, Some(e2)),
            }
        }
    }
}

pub open spec fn view_wf(t: TableView) -> bool {
    &&& forall|i: int| 0 <= i < t.rows.len() ==> keys_unique(#[trigger] t.rows[i])
    &&& match t.schema {
        None => t.rows.len() == 0,
        Some(s) => forall|i: int| 0 <= i < t.rows.len() ==> fits(#[trigger] t.rows[i], s),
    }
}

/// `check_from` finds no error exactly when `r` fits the schema entries from `i` on.
pub proof fn lemma_check_from(r: Row, s: SchemaView, i: nat)
    ensures
        check_from(r, s, i) is None <==> forall|j: int|
            i <= j < s.len() ==> lookup(r, (#[trigger] s[j]).0) is Some && lookup(r, s[j].0)->Some_0.ty()
                == s[j].1,
    decreases s.len() - i,
{
    if i < s.len() {
        lemma_check_from(r, s, i + 1);
    }
}

/// A record fits the schema adopted from it.
pub proof fn lemma_fits_adopt(r: Row)
    requires
        keys_unique(r),
    ensures
        fits(r, adopt(r)),
{
    assert forall|j: int| 0 <= j < adopt(r).len() implies lookup(r, (#[trigger] adopt(r)[j]).0) is Some
        && lookup(r, adopt(r)[j].0)->Some_0.ty() == adopt(r)[j].1 by {
        lemma_lookup_at(r, j);
    }
}

/// Replacing a field by a value of the same type keeps a record fitting.
pub proof fn lemma_fits_upsert(r: Row, s: SchemaView, k: Seq<char>, v: ValueView)
    requires
        keys_unique(r),
        fits(r, s),
        lookup(r, k) is Some,
        lookup(r, k)->Some_0.ty() == v.ty(),
    ensures
        fits(upsert(r, k, v), s),
{
    lemma_upsert(r, k, v);
}

/// The contents of a sequence of records.
pub open spec fn rows_of(v: Seq<Record>) -> Seq<Row> {
    v.map_values(|x: Record| x@)
}

/// A table: an optional schema and its records in insertion order.
pub struct Table {
    field_types: Option<IndexMap<String, ValueType>>,
    records: Vec<Record>,
}

impl View for Table {
    type V = TableView;

    closed spec fn view(&self) -> TableView {
        TableView {
            schema: match self.field_types {
                Some(m) => Some(schema_entries(m)),
                None => None,
            },
            rows: rows_of(self.records@),
        }
    }
}

impl Table {
    pub open spec fn wf(&self) -> bool {
        view_wf(self@)
    }

    pub fn new(field_types: IndexMap<String, ValueType>) -> (r: Table)
        ensures
            r@ == (TableView { schema: Some(schema_entries(field_types)), rows: Seq::empty() }),
            r.wf(),
    {
        let r = Table { field_types: Some(field_types), records: Vec::new() };
        assert(r@.rows =~= Seq::<Row>::empty());
        r
    }

    /// A table without a schema; it adopts one from its first record.
    pub fn new_generic() -> (r: Table)
        ensures
            r@ == empty_generic(),
            r.wf(),
    {
        let r = Table { field_types: None, records: Vec::new() };
        assert(r@.rows =~= Seq::<Row>::empty());
        r
    }

    /// The schema, if the table has one yet.
    pub fn field_types(&self) -> (r: Option<&IndexMap<String, ValueType>>)
        ensures
            match r {
                Some(m) => self@.schema == Some(schema_entries(*m)),
                None => self@.schema is None,
            },
    {
        self.field_types.as_ref()
    }

    pub fn record_cnt(&self) -> (r: usize)
        ensures
            r == self@.rows.len(),
    {
        self.records.len()
    }

    /// The records, in row order.
    pub fn iter(&self) -> (r: &Vec<Record>)
        ensures
            rows_of(r@) == self@.rows,
            forall|i: int| 0 <= i < r@.len() ==> (#[trigger] r@[i])@ == self@.rows[i],
    {
        &self.records
    }

    /// Inserts `record`: a table without a schema adopts one from it; a
    /// table with one takes it only if it fits.
    pub fn add_record(&mut self, record: Record) -> (r: Result<(), TableError>)
        requires
            old(self).wf(),
            record.wf(),
        ensures
            final(self).wf(),
            match add_spec(old(self)@, record@) {
                Ok(t) => r is Ok && final(self)@ == t,
                Err(e) => r == Err::<(), TableError>(e) && final(self)@ == old(self)@,
            },
    {
        let ghost rv = record@;
        match &self.field_types {
            None => {
                let mut m = schema_new();
                let fields = record.iter();
                let mut i: usize = 0;
                while i < fields.len()
                    invariant
                        i <= fields@.len(),
                        fields@.map_values(|p: (String, Value)| (p.0@, p.1@)) == rv,
                        keys_unique(rv),
                        schema_entries(m) == adopt(rv.take(i as int)),
                    decreases fields.len() - i,
                {
                    let (k, v) = &fields[i];
                    proof {
                        assert(rv[i as int] == (k@, v@));
                        if schema_has(schema_entries(m), k@) {
                            let j = choose|j: int| 0 <= j < schema_entries(m).len() && schema_entries(m)[j].0 == k@;
                            assert(rv[j].0 == k@);
                        }
                    }
                    schema_insert(&mut m, k.clone(), v.to_type());
                    assert(adopt(rv.take(i + 1)) =~= adopt(rv.take(i as int)).push((k@, v@.ty())));
                    i = i + 1;
                }
                assert(rv.take(i as int) =~= rv);
                proof {
                    lemma_fits_adopt(rv);
                }
                self.field_types = Some(m);
                self.records.push(record);
                assert(self@.rows =~= old(self)@.rows.push(rv));
                Ok(())
            },
            Some(m) => {
                let n = schema_len(m);
                let mut j: usize = 0;
                while j < n
                    invariant
                        n == schema_entries(*m).len(),
                        j <= n,
                        self@ == old(self)@,
                        self.wf(),
                        self@.schema == Some(schema_entries(*m)),
                        record@ == rv,
                        record.wf(),
                        check_from(rv, schema_entries(*m), 0) == check_from(rv, schema_entries(*m), j as nat),
                    decreases n - j,
                {
                    let (k, t) = schema_get_index(m, j).unwrap();
                    let ghost s = schema_entries(*m);
                    assert(check_from(rv, s, j as nat) == match lookup(rv, s[j as int].0) {
                        None => Some(TableError::IncorrectFieldNames),
                        Some(v) => if v.ty() != s[j as int].1 {
                            Some(TableError::IncorrectFieldTypes)
                        } else {
                            check_from(rv, s, j as nat + 1)
                        },
                    });
                    match record.get_field_as_value(k.as_str()) {
                        None => {
                            return Err(TableError::IncorrectFieldNames);
                        },
                        Some(v) => {
                            if v.to_type() != t {
                                return Err(TableError::IncorrectFieldTypes);
                            }
                        },
                    }
                    j = j + 1;
                }
                proof {
                    lemma_check_from(rv, schema_entries(*m), 0);
                }
                self.records.push(record);
                assert(self@.rows =~= old(self)@.rows.push(rv));
                Ok(())
            },
        }
    }

    /// Inserts each record in order, stopping at the first refusal; the
    /// records inserted before it stay.
    pub fn add_records(&mut self, records: Vec<Record>) -> (r: Result<(), TableError>)
        requires
            old(self).wf(),
            forall|i: int| 0 <= i < records@.len() ==> (#[trigger] records@[i]).wf(),
        ensures
            final(self).wf(),
            final(self)@ == add_seq(old(self)@, rows_of(records@)).0,
            match add_seq(old(self)@, rows_of(records@)).1 {
                None => r is Ok,
                Some(e) => r == Err::<(), TableError>(e),
            },
    {
        let ghost rs = rows_of(records@);
        let ghost orig = records@;
        let mut rest = records;
        let n = rest.len();
        let mut i: usize = 0;
        while rest.len() > 0
            invariant
                self.wf(),
                rs.len() == n,
                orig.len() == rs.len(),
                forall|j: int| 0 <= j < orig.len() ==> (#[trigger] orig[j]).wf(),
                rs == rows_of(orig),
                rs == rows_of(records@),
                i + rest@.len() == rs.len(),
                rest@ == orig.skip(i as int),
                add_seq(old(self)@, rs.take(i as int)) == (self@, None::<TableError>),
            decreases rest.len(),
        {
            let record = rest.remove(0);
            assert(rs.take(i + 1).drop_last() =~= rs.take(i as int));
            assert(record == orig[i as int]);
            assert(record@ == rs[i as int]);
            let ghost before = self@;
            let r = self.add_record(record);
            proof {
                let t2 = rs.take(i + 1);
                assert(t2.drop_last() =~= rs.take(i as int));
                assert(t2.last() == rs[i as int]);
                if r.is_err() {
                    assert(add_seq(old(self)@, t2) == (before, Some(r->Err_0)));
                } else {
                    assert(add_seq(old(self)@, t2) == (self@, None::<TableError>));
                }
            }
            assert(rest@ =~= orig.skip(i + 1));
            i = i + 1;
            if r.is_err() {
                proof {
                    lemma_add_seq_stops(old(self)@, rs, i as nat);
                    assert(add_seq(old(self)@, rs) == (before, Some(r->Err_0)));
                    assert(self@ == before);
                }
                return r;
            }
        }
        assert(rs.take(i as int) =~= rs);
        Ok(())
    }

    /// Removes and returns the record at `idx`; later rows move up by one.
    pub fn remove_record(&mut self, idx: usize) -> (r: Option<Record>)
        requires
            old(self).wf(),
        ensures
            final(self).wf(),
            idx >= old(self)@.rows.len() ==> r is None && final(self)@ == old(self)@,
            idx < old(self)@.rows.len() ==> r is Some && r->Some_0@ == old(self)@.rows[idx as int]
                && r->Some_0.wf() && final(self)@ == (TableView {
                schema: old(self)@.schema,
                rows: old(self)@.rows.remove(idx as int),
            }),
    {
        if idx >= self.records.len() {
            return None;
        }
        let r = self.records.remove(idx);
        assert(self@.rows =~= old(self)@.rows.remove(idx as int));
        Some(r)
    }

    pub fn get_record(&self, idx: usize) -> (r: Option<&Record>)
        ensures
            idx >= self@.rows.len() ==> r is None,
            idx < self@.rows.len() ==> r is Some && r->Some_0@ == self@.rows[idx as int],
    {
        if idx >= self.records.len() {
            return None;
        }
        Some(&self.records[idx])
    }

    /// The value of field `field_name` in row `record_idx`, which must be of
    /// type `expected`.
    pub fn get_field(&self, record_idx: usize, field_name: &str, expected: ValueType) -> (r: Result<Value, TableError>)
        requires
            self.wf(),
            record_idx < self@.rows.len(),
        ensures
            r is Err <==> typed_lookup(self@.rows[record_idx as int], field_name@, expected) is Err,
            r is Err ==> r->Err_0 == typed_lookup(self@.rows[record_idx as int], field_name@, expected)->Err_0,
            r is Ok ==> typed_lookup(self@.rows[record_idx as int], field_name@, expected)
                == Ok::<ValueView, TableError>(r->Ok_0@),
    {
        self.records[record_idx].get_field(field_name, expected)
    }

    /// Replaces the value of a field in row `record_idx`; the new value must
    /// have the type of the one it replaces.
    pub fn change_field(&mut self, record_idx: usize, field_name: &str, value: Value) -> (r: Result<(), TableError>)
        requires
            old(self).wf(),
            record_idx < old(self)@.rows.len(),
        ensures
            final(self).wf(),
            r == change_spec(old(self)@.rows[record_idx as int], field_name@, value@),
            r is Err ==> final(self)@ == old(self)@,
            r is Ok ==> final(self)@ == (TableView {
                schema: old(self)@.schema,
                rows: old(self)@.rows.update(
                    record_idx as int,
                    upsert(old(self)@.rows[record_idx as int], field_name@, value@),
                ),
            }),
    {
        let ghost row = self@.rows[record_idx as int];
        match self.records[record_idx].get_field_as_value(field_name) {
            None => {
                return Err(TableError::InvalidField);
            },
            Some(v) => {
                if v.to_type() != value.to_type() {
                    return Err(TableError::MismatchedTypes);
                }
            },
        }
        let mut rec = self.records.remove(record_idx);
        assert(rec@ == row);
        rec.add_field(field_name, value);
        self.records.insert(record_idx, rec);
        proof {
            lemma_upsert(row, field_name@, value@);
            match self@.schema {
                Some(s) => lemma_fits_upsert(row, s, field_name@, value@),
                None => {},
            }
        }
        assert(self@.rows =~= old(self)@.rows.update(record_idx as int, upsert(row, field_name@, value@)));
        Ok(())
    }


    /// A new table with this table's schema and the rows whose field
    /// `field_name` stands in relation `operator` to `comp_value`.
    pub fn get_records_where(
        &self,
        field_name: &str,
        operator: Operator,
        comp_value: Value,
    ) -> (r: Result<Table, TableError>)
        requires
            self.wf(),
        ensures
            table_result(r, where_spec(self@, field_name@, operator, comp_value@)),
    {
        let m = match &self.field_types {
            None => {
                return Ok(Table::new_generic());
            },
            Some(m) => m,
        };
        let ty = match schema_get(m, field_name) {
            None => {
                return Err(TableError::InvalidField);
            },
            Some(t) => t,
        };
        if ty != comp_value.to_type() {
            return Err(TableError::MismatchedTypes);
        }
        if ty == ValueType::Float && operator != Operator::EqualTo {
            return Err(TableError::InvalidOperator);
        }
        let comp_func = create_comp_func(operator);
        let ghost s = schema_entries(*m);
        let ghost rows = self@.rows;
        let mut out = Table { field_types: Some(schema_clone(m)), records: Vec::new() };
        assert(out@.rows =~= Seq::<Row>::empty());
        assert(rows.take(0) =~= Seq::<Row>::empty());
        let mut i: usize = 0;
        while i < self.records.len()
            invariant
                self.wf(),
                rows == self@.rows,
                self@.schema == Some(s),
                comp_func.operator == operator,
                i <= rows.len(),
                out@ == (TableView { schema: Some(s), rows: select(rows.take(i as int), field_name@, operator, comp_value@) }),
                out.wf(),
            decreases self.records.len() - i,
        {
            assert(rows.take(i + 1).drop_last() =~= rows.take(i as int));
            assert(self.records@[i as int]@ == rows[i as int]);
            match self.records[i].get_field_as_value(field_name) {
                Some(v) => {
                    if comp_func.call(v, &comp_value) {
                        assert(keys_unique(rows[i as int]) && fits(rows[i as int], s));
                        let rec = self.records[i].copy();
                        let ghost prev = out@.rows;
                        out.records.push(rec);
                        assert forall|j: int| 0 <= j < out@.rows.len() implies keys_unique(
                            #[trigger] out@.rows[j],
                        ) && fits(out@.rows[j], s) by {
                            if j < prev.len() {
                                assert(out@.rows[j] == prev[j]);
                            }
                        }
                        assert(out@.rows =~= select(rows.take(i as int), field_name@, operator, comp_value@).push(rows[i as int]));
                    }
                },
                None => {},
            }
            i = i + 1;
        }
        assert(rows.take(i as int) =~= rows);
        Ok(out)
    }

    /// A new table with this table's schema and the rows whose field
    /// `field_name` equals `comp_value`; only the field's presence in the
    /// schema is checked beforehand.
    pub fn get_records_where_eql(&self, field_name: &str, comp_value: Value) -> (r: Result<
        Table,
        TableError,
    >)
        requires
            self.wf(),
        ensures
            table_result(r, where_eql_spec(self@, field_name@, comp_value@)),
    {
        let m = match &self.field_types {
            None => {
                return Ok(Table::new_generic());
            },
            Some(m) => m,
        };
        if schema_get(m, field_name).is_none() {
            return Err(TableError::InvalidField);
        }
        let ghost s = schema_entries(*m);
        let ghost rows = self@.rows;
        let mut out = Table { field_types: Some(schema_clone(m)), records: Vec::new() };
        assert(out@.rows =~= Seq::<Row>::empty());
        assert(rows.take(0) =~= Seq::<Row>::empty());
        let mut i: usize = 0;
        while i < self.records.len()
            invariant
                self.wf(),
                rows == self@.rows,
                self@.schema == Some(s),
                i <= rows.len(),
                out@ == (TableView {
                    schema: Some(s),
                    rows: select(rows.take(i as int), field_name@, Operator::EqualTo, comp_value@),
                }),
                out.wf(),
            decreases self.records.len() - i,
        {
            assert(rows.take(i + 1).drop_last() =~= rows.take(i as int));
            assert(self.records@[i as int]@ == rows[i as int]);
            match self.records[i].get_field_as_value(field_name) {
                Some(v) => {
                    if *v == comp_value {
                        assert(keys_unique(rows[i as int]) && fits(rows[i as int], s));
                        let rec = self.records[i].copy();
                        let ghost prev = out@.rows;
                        out.records.push(rec);
                        assert forall|j: int| 0 <= j < out@.rows.len() implies keys_unique(
                            #[trigger] out@.rows[j],
                        ) && fits(out@.rows[j], s) by {
                            if j < prev.len() {
                                assert(out@.rows[j] == prev[j]);
                            }
                        }
                        assert(out@.rows =~= select(rows.take(i as int), field_name@, Operator::EqualTo, comp_value@).push(rows[i as int]));
                    }
                },
                None => {},
            }
            i = i + 1;
        }
        assert(rows.take(i as int) =~= rows);
        Ok(out)
    }

    /// A new table without a fixed schema whose rows hold the fields
    /// `field_names` of each row, in that order.
    pub fn get_fields(&self, field_names: Vec<&str>) -> (r: Result<Table, TableError>)
        requires
            self.wf(),
        ensures
            table_result(r, fields_spec(self@, names_of(field_names@))),
    {
        let ghost names = names_of(field_names@);
        if self.field_types.is_none() {
            if field_names.len() > 0 {
                return Err(TableError::TableHasNoFields);
            }
            return Ok(Table::new_generic());
        }
        let ghost rows = self@.rows;
        let mut out = Table::new_generic();
        let mut i: usize = 0;
        while i < self.records.len()
            invariant
                self.wf(),
                rows == self@.rows,
                names == names_of(field_names@),
                i <= rows.len(),
                project_all(rows.take(i as int), names) == Ok::<TableView, TableError>(out@),
                out.wf(),
            decreases self.records.len() - i,
        {
            assert(rows.take(i + 1).drop_last() =~= rows.take(i as int));
            assert(self.records@[i as int]@ == rows[i as int]);
            let mut rec = Record::new();
            let mut j: usize = 0;
            while j < field_names.len()
                invariant
                    self.wf(),
                    rows == self@.rows,
                    i < rows.len(),
                    self.records@[i as int]@ == rows[i as int],
                    names == names_of(field_names@),
                    j <= names.len(),
                    rec.wf(),
                    project(rows[i as int], names.take(j as int)) == Some(rec@),
                    project_all(rows.take(i as int), names) == Ok::<TableView, TableError>(out@),
                    rows.take(i + 1).drop_last() == rows.take(i as int),
                    out.wf(),
                decreases field_names.len() - j,
            {
                assert(names.take(j + 1).drop_last() =~= names.take(j as int));
                assert(names[j as int] == field_names@[j as int]@);
                match self.records[i].get_field_as_value(field_names[j]) {
                    None => {
                        proof {
                            let r = rows[i as int];
                            assert(project(r, names.take(j + 1)) is None);
                            lemma_project_stops(r, names, (j + 1) as nat);
                            assert(rows.take(i + 1).last() == r);
                            assert(project_all(rows.take(i + 1), names) == Err::<TableView, TableError>(
                                TableError::InvalidField,
                            ));
                            lemma_project_all_stops(rows, names, (i + 1) as nat);
                        }
                        return Err(TableError::InvalidField);
                    },
                    Some(v) => {
                        rec.add_field_as_value(field_names[j], v.copy());
                    },
                }
                j = j + 1;
            }
            assert(names.take(j as int) =~= names);
            match out.add_record(rec) {
                Err(e) => {
                    proof {
                        lemma_project_all_stops(rows, names, (i + 1) as nat);
                    }
                    return Err(e);
                },
                Ok(()) => {},
            }
            i = i + 1;
        }
        assert(rows.take(i as int) =~= rows);
        Ok(out)
    }
}

/// The rows whose field `k` is present and stands in relation `op` to `c`,
/// in the order of the table.
pub open spec fn select(rows: Seq<Row>, k: Seq<char>, op: Operator, c: ValueView) -> Seq<Row>
    decreases rows.len(),
{
    if rows.len() == 0 {
        Seq::empty()
    } else {
        let s = select(rows.drop_last(), k, op, c);
        if lookup(rows.last(), k) is Some && holds(op, lookup(rows.last(), k)->Some_0, c) {
            s.push(rows.last())
        } else {
            s
        }
    }
}

/// The outcome of filtering `t` by `k op c`.
pub open spec fn where_spec(t: TableView, k: Seq<char>, op: Operator, c: ValueView) -> Result<TableView, TableError> {
    match t.schema {
        None => Ok(empty_generic()),
        Some(s) => match schema_type(s, k) {
            None => Err(TableError::InvalidField),
            Some(ty) => if ty != c.ty() {
                Err(TableError::MismatchedTypes)
            } else if ty == ValueType::Float && op != Operator::EqualTo {
                Err(TableError::InvalidOperator)
            } else {
                Ok(TableView { schema: Some(s), rows: select(t.rows, k, op, c) })
            },
        },
    }
}

/// The outcome of keeping the rows of `t` whose field `k` equals `c`.
pub open spec fn where_eql_spec(t: TableView, k: Seq<char>, c: ValueView) -> Result<TableView, TableError> {
    match t.schema {
        None => Ok(empty_generic()),
        Some(s) => match schema_type(s, k) {
            None => Err(TableError::InvalidField),
            Some(_) => Ok(TableView { schema: Some(s), rows: select(t.rows, k, Operator::EqualTo, c) }),
        },
    }
}

/// The fields `names` of `r`, in that order, or `None` if one is missing.
pub open spec fn project(r: Row, names: Seq<Seq<char>>) -> Option<Row>
    decreases names.len(),
{
    if names.len() == 0 {
        Some(Seq::empty())
    } else {
        match project(r, names.drop_last()) {
            None => None,
            Some(p) => match lookup(r, names.last()) {
                None => None,
                Some(v) => Some(upsert(p, names.last(), v)),
            },
        }
    }
}

/// Inserts the projection of each row, in order, into a table without a schema.
pub open spec fn project_all(rows: Seq<Row>, names: Seq<Seq<char>>) -> Result<TableView, TableError>
    decreases rows.len(),
{
    if rows.len() == 0 {
        Ok(empty_generic())
    } else {
        match project_all(rows.drop_last(), names) {
            Err(e) => Err(e),
            Ok(t) => match project(rows.last(), names) {
                None => Err(TableError::InvalidField),
                Some(p) => add_spec(t, p),
            },
        }
    }
}

/// The outcome of projecting `t` on the fields `names`.
pub open spec fn fields_spec(t: TableView, names: Seq<Seq<char>>) -> Result<TableView, TableError> {
    match t.schema {
        None => if names.len() > 0 {
            Err(TableError::TableHasNoFields)
        } else {
            Ok(empty_generic())
        },
        Some(_) => project_all(t.rows, names),
    }
}

pub open spec fn names_of(v: Seq<&str>) -> Seq<Seq<char>> {
    v.map_values(|s: &str| s@)
}

/// A result that carries a table has the given content.
pub open spec fn table_result(r: Result<Table, TableError>, expected: Result<TableView, TableError>) -> bool {
    match expected {
        Ok(t) => r is Ok && r->Ok_0@ == t && r->Ok_0.wf(),
        Err(e) => r is Err && r->Err_0 == e,
    }
}

/// The outcome of replacing field `k` of `r` by `v`.
pub open spec fn change_spec(r: Row, k: Seq<char>, v: ValueView) -> Result<(), TableError> {
    match lookup(r, k) {
        None => Err(TableError::InvalidField),
        Some(old_v) => if old_v.ty() != v.ty() {
            Err(TableError::MismatchedTypes)
        } else {
            Ok(())
        },
    }
}

/// Once inserting a prefix of `rs` fails, inserting all of `rs` leaves the
/// same table and error.
pub proof fn lemma_add_seq_stops(t: TableView, rs: Seq<Row>, i: nat)
    requires
        i <= rs.len(),
        add_seq(t, rs.take(i as int)).1 is Some,
    ensures
        add_seq(t, rs) == add_seq(t, rs.take(i as int)),
    decreases rs.len() - i,
{
    if i < rs.len() {
        assert(rs.take(i + 1 as int).drop_last() =~= rs.take(i as int));
        lemma_add_seq_stops(t, rs, i + 1);
    } else {
        assert(rs.take(i as int) =~= rs);
    }
}

/// Once a prefix of the names is missing from `r`, the whole projection is.
pub proof fn lemma_project_stops(r: Row, names: Seq<Seq<char>>, j: nat)
    requires
        j <= names.len(),
        project(r, names.take(j as int)) is None,
    ensures
        project(r, names) is None,
    decreases names.len() - j,
{
    if j < names.len() {
        assert(names.take(j + 1 as int).drop_last() =~= names.take(j as int));
        lemma_project_stops(r, names, j + 1);
    } else {
        assert(names.take(j as int) =~= names);
    }
}

/// Once projecting a prefix of the rows fails, projecting all of them fails
/// with the same error.
pub proof fn lemma_project_all_stops(rows: Seq<Row>, names: Seq<Seq<char>>, i: nat)
    requires
        i <= rows.len(),
        project_all(rows.take(i as int), names) is Err,
    ensures
        project_all(rows, names) == project_all(rows.take(i as int), names),
    decreases rows.len() - i,
{
    if i < rows.len() {
        assert(rows.take(i + 1 as int).drop_last() =~= rows.take(i as int));
        lemma_project_all_stops(rows, names, i + 1);
    } else {
        assert(rows.take(i as int) =~= rows);
    }
}

/// Inserting into a table that has a schema succeeds exactly when the record
/// holds every schema field with its declared type; extra fields are allowed.
pub proof fn lemma_schema_enforcement(t: TableView, r: Row)
    requires
        t.schema is Some,
    ensures
        add_spec(t, r) is Ok <==> fits(r, t.schema->Some_0),
        add_spec(t, r) is Ok ==> add_spec(t, r)->Ok_0.rows == t.rows.push(r),
{
    lemma_check_from(r, t.schema->Some_0, 0);
}

/// Where every schema field is present in `r`, the check can only fail on a type.
proof fn lemma_check_from_names(r: Row, s: SchemaView, i: nat)
    requires
        forall|j: int| 0 <= j < s.len() ==> lookup(r, (#[trigger] s[j]).0) is Some,
    ensures
        check_from(r, s, i) is None || check_from(r, s, i) == Some(TableError::IncorrectFieldTypes),
    decreases s.len() - i,
{
    if i < s.len() {
        lemma_check_from_names(r, s, i + 1);
    }
}

/// A table without a schema adopts one from its first record: each field of
/// the record with the type of its value. A second record that holds the same
/// fields, one of them with a value of another type, is then refused with
/// `IncorrectFieldTypes`.
pub proof fn lemma_schema_adoption(t: TableView, r1: Row, r2: Row)
    requires
        t.schema is None,
        keys_unique(r1),
    ensures
        add_spec(t, r1) is Ok,
        add_spec(t, r1)->Ok_0.schema == Some(adopt(r1)),
        add_spec(t, r1)->Ok_0.rows == t.rows.push(r1),
        (forall|j: int| 0 <= j < r1.len() ==> lookup(r2, (#[trigger] r1[j]).0) is Some) && (exists|j: int|
            0 <= j < r1.len() && lookup(r2, (#[trigger] r1[j]).0)->Some_0.ty() != r1[j].1.ty())
            ==> add_spec(add_spec(t, r1)->Ok_0, r2) == Err::<TableView, TableError>(TableError::IncorrectFieldTypes),
{
    let s = adopt(r1);
    if (forall|j: int| 0 <= j < r1.len() ==> lookup(r2, (#[trigger] r1[j]).0) is Some) && (exists|j: int|
        0 <= j < r1.len() && lookup(r2, (#[trigger] r1[j]).0)->Some_0.ty() != r1[j].1.ty()) {
        assert forall|j: int| 0 <= j < s.len() implies lookup(r2, (#[trigger] s[j]).0) is Some by {
            assert(s[j].0 == r1[j].0);
        }
        lemma_check_from_names(r2, s, 0);
        lemma_check_from(r2, s, 0);
        let j = choose|j: int| 0 <= j < r1.len() && lookup(r2, (#[trigger] r1[j]).0)->Some_0.ty() != r1[j].1.ty();
        assert(s[j].0 == r1[j].0);
        assert(s[j].1 == r1[j].1.ty());
        assert(check_from(r2, s, 0) is Some);
    }
}

/// Replacing a field and reading it back with the new value's type gives the
/// new value; a replacement by a value of another type is refused.
pub proof fn lemma_change_round_trip(r: Row, k: Seq<char>, v: ValueView)
    requires
        keys_unique(r),
    ensures
        change_spec(r, k, v) is Ok ==> typed_lookup(upsert(r, k, v), k, v.ty()) == Ok::<ValueView, TableError>(v),
        lookup(r, k) is Some && lookup(r, k)->Some_0.ty() != v.ty() ==> change_spec(r, k, v) == Err::<(), TableError>(
            TableError::MismatchedTypes,
        ),
{
    lemma_upsert(r, k, v);
}

/// The rows that satisfy a filter's condition.
pub open spec fn satisfies(k: Seq<char>, op: Operator, c: ValueView) -> spec_fn(Row) -> bool {
    |r: Row| lookup(r, k) is Some && holds(op, lookup(r, k)->Some_0, c)
}

proof fn lemma_select_filter(rows: Seq<Row>, k: Seq<char>, op: Operator, c: ValueView)
    ensures
        select(rows, k, op, c) == rows.filter(satisfies(k, op, c)),
    decreases rows.len(),
{
    reveal(Seq::filter);
    if rows.len() > 0 {
        lemma_select_filter(rows.drop_last(), k, op, c);
    }
}

proof fn lemma_select_none(rows: Seq<Row>, k: Seq<char>, op: Operator, c: ValueView)
    requires
        forall|i: int| 0 <= i < rows.len() ==> !holds(op, lookup(#[trigger] rows[i], k)->Some_0, c),
    ensures
        select(rows, k, op, c).len() == 0,
    decreases rows.len(),
{
    if rows.len() > 0 {
        assert forall|i: int| 0 <= i < rows.drop_last().len() implies !holds(
            op,
            lookup(#[trigger] rows.drop_last()[i], k)->Some_0,
            c,
        ) by {
            assert(rows.drop_last()[i] == rows[i]);
        }
        lemma_select_none(rows.drop_last(), k, op, c);
        assert(!holds(op, lookup(rows[rows.len() - 1], k)->Some_0, c));
    }
}

/// Filtering a table on a schema field, with a value of the field's type,
/// succeeds and keeps exactly the rows whose field stands in the relation to
/// the value, in the order of the table; none matching gives an empty table.
pub proof fn lemma_filter(t: TableView, k: Seq<char>, op: Operator, c: ValueView)
    requires
        view_wf(t),
        t.schema is Some,
        schema_type(t.schema->Some_0, k) == Some(c.ty()),
        c.ty() != ValueType::Float || op == Operator::EqualTo,
    ensures
        where_spec(t, k, op, c) is Ok,
        where_spec(t, k, op, c)->Ok_0.schema == t.schema,
        where_spec(t, k, op, c)->Ok_0.rows == t.rows.filter(satisfies(k, op, c)),
        forall|i: int| 0 <= i < where_spec(t, k, op, c)->Ok_0.rows.len() ==> holds(
            op,
            lookup(#[trigger] where_spec(t, k, op, c)->Ok_0.rows[i], k)->Some_0,
            c,
        ),
        forall|i: int| 0 <= i < t.rows.len() && holds(op, lookup(#[trigger] t.rows[i], k)->Some_0, c)
            ==> where_spec(t, k, op, c)->Ok_0.rows.contains(t.rows[i]),
        (forall|i: int| 0 <= i < t.rows.len() ==> !holds(op, lookup(#[trigger] t.rows[i], k)->Some_0, c))
            ==> where_spec(t, k, op, c)->Ok_0.rows.len() == 0,
{
    let s = t.schema->Some_0;
    let f = satisfies(k, op, c);
    lemma_select_filter(t.rows, k, op, c);
    lemma_schema_type(s, k);
    let j = choose|j: int| 0 <= j < s.len() && s[j].0 == k && s[j].1 == schema_type(s, k)->Some_0;
    assert forall|i: int| 0 <= i < t.rows.len() implies lookup(#[trigger] t.rows[i], k) is Some by {
        assert(fits(t.rows[i], s));
        assert(s[j].0 == k);
    }
    t.rows.filter_lemma(f);
    assert forall|i: int| 0 <= i < t.rows.len() && holds(op, lookup(#[trigger] t.rows[i], k)->Some_0, c)
        implies t.rows.filter(f).contains(t.rows[i]) by {
        assert(f(t.rows[i]));
    }
    if forall|i: int| 0 <= i < t.rows.len() ==> !holds(op, lookup(#[trigger] t.rows[i], k)->Some_0, c) {
        lemma_select_none(t.rows, k, op, c);
    }
}

/// Projecting a record on names it all holds keeps exactly those fields, with
/// their values.
proof fn lemma_project(r: Row, names: Seq<Seq<char>>)
    requires
        keys_unique(r),
        forall|j: int| 0 <= j < names.len() ==> lookup(r, #[trigger] names[j]) is Some,
    ensures
        project(r, names) is Some,
        keys_unique(project(r, names)->Some_0),
        forall|k: Seq<char>| #[trigger] lookup(project(r, names)->Some_0, k) == (if names.contains(k) {
            lookup(r, k)
        } else {
            None
        }),
        forall|k: Seq<char>| has_field(project(r, names)->Some_0, k) <==> names.contains(k),
    decreases names.len(),
{
    if names.len() == 0 {
        assert forall|k: Seq<char>| has_field(project(r, names)->Some_0, k) <==> names.contains(k) by {}
    } else {
        let init = names.drop_last();
        assert forall|j: int| 0 <= j < init.len() implies lookup(r, #[trigger] init[j]) is Some by {
            assert(init[j] == names[j]);
        }
        lemma_project(r, init);
        let p = project(r, init)->Some_0;
        let k0 = names.last();
        lemma_upsert(p, k0, lookup(r, k0)->Some_0);
        assert forall|k: Seq<char>| names.contains(k) <==> (init.contains(k) || k == k0) by {
            if names.contains(k) {
                let j = choose|j: int| 0 <= j < names.len() && names[j] == k;
                if j < init.len() {
                    assert(init[j] == k);
                }
            }
            if init.contains(k) {
                let j = choose|j: int| 0 <= j < init.len() && init[j] == k;
                assert(names[j] == k);
            }
            if k == k0 {
                assert(names[names.len() - 1] == k);
            }
        }
        assert forall|k: Seq<char>| #[trigger] lookup(project(r, names)->Some_0, k) == (if names.contains(k) {
            lookup(r, k)
        } else {
            None
        }) by {
            if !has_field(p, k) && k != k0 {
                assert(lookup(p, k) is None);
            }
        }
    }
}

/// The projection of each row, in order.
pub open spec fn projected(rows: Seq<Row>, names: Seq<Seq<char>>) -> Seq<Row>
    decreases rows.len(),
{
    if rows.len() == 0 {
        Seq::empty()
    } else {
        projected(rows.drop_last(), names).push(project(rows.last(), names)->Some_0)
    }
}

/// The declared type of a schema field is the type of that field in every
/// row that fits the schema.
proof fn lemma_declared_type(r: Row, s: SchemaView, k: Seq<char>)
    requires
        fits(r, s),
        schema_has(s, k),
    ensures
        lookup(r, k) is Some,
        lookup(r, k)->Some_0.ty() == schema_type(s, k)->Some_0,
{
    lemma_schema_type(s, k);
    let j = choose|j: int| 0 <= j < s.len() && s[j].0 == k && s[j].1 == schema_type(s, k)->Some_0;
    assert(fits(r, s));
    assert(lookup(r, s[j].0) is Some);
}

proof fn lemma_project_all(rows: Seq<Row>, names: Seq<Seq<char>>, s: SchemaView)
    requires
        forall|i: int| 0 <= i < rows.len() ==> keys_unique(#[trigger] rows[i]) && fits(rows[i], s),
        forall|j: int| 0 <= j < names.len() ==> schema_has(s, #[trigger] names[j]),
    ensures
        projected(rows, names).len() == rows.len(),
        forall|i: int| 0 <= i < rows.len() ==> #[trigger] projected(rows, names)[i] == project(rows[i], names)->Some_0,
        project_all(rows, names) == Ok::<TableView, TableError>(TableView {
            schema: if rows.len() == 0 {
                None
            } else {
                Some(adopt(project(rows[0], names)->Some_0))
            },
            rows: projected(rows, names),
        }),
    decreases rows.len(),
{
    if rows.len() > 0 {
        let init = rows.drop_last();
        assert forall|i: int| 0 <= i < init.len() implies keys_unique(#[trigger] init[i]) && fits(init[i], s) by {
            assert(init[i] == rows[i]);
        }
        lemma_project_all(init, names, s);
        assert forall|i: int| 0 <= i < rows.len() implies #[trigger] projected(rows, names)[i] == project(rows[i], names)->Some_0 by {
            if i < init.len() {
                assert(init[i] == rows[i]);
            }
        }
        let r = rows.last();
        assert(keys_unique(r) && fits(r, s));
        assert forall|j: int| 0 <= j < names.len() implies lookup(r, #[trigger] names[j]) is Some by {
            lemma_declared_type(r, s, names[j]);
        }
        lemma_project(r, names);
        let p = project(r, names)->Some_0;
        if init.len() > 0 {
            let r0 = rows[0];
            assert(init[0] == r0);
            assert(keys_unique(r0) && fits(r0, s));
            assert forall|j: int| 0 <= j < names.len() implies lookup(r0, #[trigger] names[j]) is Some by {
                lemma_declared_type(r0, s, names[j]);
            }
            lemma_project(r0, names);
            let p0 = project(r0, names)->Some_0;
            let a = adopt(p0);
            assert forall|j: int| 0 <= j < a.len() implies lookup(p, (#[trigger] a[j]).0) is Some
                && lookup(p, a[j].0)->Some_0.ty() == a[j].1 by {
                let k = p0[j].0;
                assert(a[j].0 == k);
                assert(has_field(p0, k));
                lemma_lookup_at(p0, j);
                let m = choose|m: int| 0 <= m < names.len() && names[m] == k;
                lemma_declared_type(r, s, names[m]);
                lemma_declared_type(r0, s, names[m]);
            }
            lemma_check_from(p, a, 0);
        }
    }
}

/// Projecting a table on fields of its schema succeeds with one row per row,
/// in the same order; each output row holds exactly the requested fields,
/// with the values of the row it comes from.
pub proof fn lemma_projection(t: TableView, names: Seq<Seq<char>>)
    requires
        view_wf(t),
        t.schema is Some,
        forall|j: int| 0 <= j < names.len() ==> schema_has(t.schema->Some_0, #[trigger] names[j]),
    ensures
        fields_spec(t, names) is Ok,
        fields_spec(t, names)->Ok_0.rows.len() == t.rows.len(),
        forall|i: int, k: Seq<char>|
            0 <= i < t.rows.len() ==> #[trigger] lookup(fields_spec(t, names)->Ok_0.rows[i], k) == (if names.contains(k) {
                lookup(t.rows[i], k)
            } else {
                None
            }),
{
    let s = t.schema->Some_0;
    lemma_project_all(t.rows, names, s);
    assert forall|i: int, k: Seq<char>|
        0 <= i < t.rows.len() implies #[trigger] lookup(fields_spec(t, names)->Ok_0.rows[i], k) == (if names.contains(k) {
            lookup(t.rows[i], k)
        } else {
            None
        }) by {
        let r = t.rows[i];
        assert(keys_unique(r) && fits(r, s));
        assert forall|j: int| 0 <= j < names.len() implies lookup(r, #[trigger] names[j]) is Some by {
            lemma_declared_type(r, s, names[j]);
        }
        lemma_project(r, names);
    }
}

} // verus!
