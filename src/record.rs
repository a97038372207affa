use vstd::prelude::*;
use crate::value::{TableError, ToType, Value, ValueType, ValueView};

verus! {

/// The content of a record: its fields as (name, value) pairs, in the order in
/// which each name was first added.
pub type Row = Seq<(Seq<char>, ValueView)>;

/// No field name occurs twice.
pub open spec fn keys_unique(r: Row) -> bool {
    forall|i: int, j: int| 0 <= i < j < r.len() ==> r[i].0 != r[j].0
}

pub open spec fn has_field(r: Row, k: Seq<char>) -> bool {
    exists|i: int| 0 <= i < r.len() && r[i].0 == k
}

/// The value stored under `k`, if any.
pub open spec fn lookup(r: Row, k: Seq<char>) -> Option<ValueView> {
    if has_field(r, k) {
        Some(r[choose|i: int| 0 <= i < r.len() && r[i].0 == k].1)
    } else {
        None
    }
}

/// Sets `k` to `v`: in place where `k` is present, else appended.
pub open spec fn upsert(r: Row, k: Seq<char>, v: ValueView) -> Row {
    if has_field(r, k) {
        r.update(choose|i: int| 0 <= i < r.len() && r[i].0 == k, (k, v))
    } else {
        r.push((k, v))
    }
}

/// Upserts every field of `o`, in order, into `r`.
pub open spec fn extend_row(r: Row, o: Row) -> Row
    decreases o.len(),
{
    if o.len() == 0 {
        r
    } else {
        upsert(extend_row(r, o.drop_last()), o.last().0, o.last().1)
    }
}

pub proof fn lemma_lookup_at(r: Row, i: int)
    requires
        keys_unique(r),
        0 <= i < r.len(),
    ensures
        lookup(r, r[i].0) == Some(r[i].1),
{
    assert(has_field(r, r[i].0));
}

pub proof fn lemma_upsert(r: Row, k: Seq<char>, v: ValueView)
    requires
        keys_unique(r),
    ensures
        keys_unique(upsert(r, k, v)),
        lookup(upsert(r, k, v), k) == Some(v),
        forall|k2: Seq<char>| k2 != k ==> lookup(#[trigger] upsert(r, k, v), k2) == lookup(r, k2),
        forall|k2: Seq<char>| has_field(#[trigger] upsert(r, k, v), k2) <==> (has_field(r, k2) || k2 == k),
{
    let u = upsert(r, k, v);
    if has_field(r, k) {
        let i = choose|i: int| 0 <= i < r.len() && r[i].0 == k;
        assert(u[i].0 == k);
        assert forall|k2: Seq<char>| has_field(u, k2) <==> (has_field(r, k2) || k2 == k) by {
            if has_field(r, k2) {
                let j = choose|j: int| 0 <= j < r.len() && r[j].0 == k2;
                assert(u[j].0 == k2);
            }
            if has_field(u, k2) {
                let j = choose|j: int| 0 <= j < u.len() && u[j].0 == k2;
                assert(r[j].0 == k2);
            }
        }
        lemma_lookup_at(u, i);
        assert forall|k2: Seq<char>| k2 != k implies lookup(u, k2) == lookup(r, k2) by {
            if has_field(r, k2) {
                let j = choose|j: int| 0 <= j < r.len() && r[j].0 == k2;
                lemma_lookup_at(r, j);
                lemma_lookup_at(u, j);
            }
        }
    } else {
        let n = r.len() as int;
        assert(u[n].0 == k);
        assert forall|k2: Seq<char>| has_field(u, k2) <==> (has_field(r, k2) || k2 == k) by {
            if has_field(r, k2) {
                let j = choose|j: int| 0 <= j < r.len() && r[j].0 == k2;
                assert(u[j].0 == k2);
            }
        }
        lemma_lookup_at(u, n);
        assert forall|k2: Seq<char>| k2 != k implies lookup(u, k2) == lookup(r, k2) by {
            if has_field(r, k2) {
                let j = choose|j: int| 0 <= j < r.len() && r[j].0 == k2;
                lemma_lookup_at(r, j);
                lemma_lookup_at(u, j);
            }
        }
    }
}

/// A mapping from field names to values.
#[derive(Clone, Debug)]
pub struct Record {
    fields: Vec<(String, Value)>,
}

impl View for Record {
    type V = Row;

    closed spec fn view(&self) -> Row {
        self.fields@.map_values(|p: (String, Value)| (p.0@, p.1@))
    }
}

impl Record {
    pub open spec fn wf(&self) -> bool {
        keys_unique(self@)
    }

    pub fn new() -> (r: Record)
        ensures
            r@ == Seq::<(Seq<char>, ValueView)>::empty(),
            r.wf(),
    {
        Record { fields: Vec::new() }
    }

    /// A copy holding the same fields in the same order.
    pub fn copy(&self) -> (r: Record)
        ensures
            r@ == self@,
    {
        let mut fields: Vec<(String, Value)> = Vec::new();
        let mut i: usize = 0;
        while i < self.fields.len()
            invariant
                i <= self.fields.len(),
                fields@.len() == i,
                forall|j: int| 0 <= j < i ==> (#[trigger] fields@[j]).0@ == self.fields@[j].0@
                    && fields@[j].1@ == self.fields@[j].1@,
            decreases self.fields.len() - i,
        {
            let (k, v) = &self.fields[i];
            fields.push((k.clone(), v.copy()));
            i = i + 1;
        }
        let r = Record { fields };
        assert(r@ =~= self@);
        r
    }

    /// The position of the field named `name`, if present.
    fn position(&self, name: &str) -> (r: Option<usize>)
        requires
            self.wf(),
        ensures
            match r {
                Some(i) => i < self@.len() && self@[i as int].0 == name@,
                None => !has_field(self@, name@),
            },
    {
        let key = name.to_owned();
        let mut i: usize = 0;
        while i < self.fields.len()
            invariant
                i <= self.fields.len(),
                key@ == name@,
                forall|j: int| 0 <= j < i ==> self@[j].0 != name@,
            decreases self.fields.len() - i,
        {
            if self.fields[i].0.eq(&key) {
                return Some(i);
            }
            i = i + 1;
        }
        None
    }

    /// Sets the field `field_name` to `value`, replacing any earlier value.
    pub fn add_field(&mut self, field_name: &str, value: Value)
        requires
            old(self).wf(),
        ensures
            final(self).wf(),
            final(self)@ == upsert(old(self)@, field_name@, value@),
    {
        proof {
            lemma_upsert(self@, field_name@, value@);
        }
        match self.position(field_name) {
            Some(i) => {
                proof {
                    let c = choose|j: int| 0 <= j < self@.len() && self@[j].0 == field_name@;
                    if c != i as int {
                        assert(self@[c].0 == self@[i as int].0);
                    }
                }
                self.fields.set(i, (field_name.to_owned(), value));
                assert(self@ =~= upsert(old(self)@, field_name@, value@));
            },
            None => {
                self.fields.push((field_name.to_owned(), value));
                assert(self@ =~= upsert(old(self)@, field_name@, value@));
            },
        }
    }

    /// Same as [`Record::add_field`].
    pub fn add_field_as_value(&mut self, field_name: &str, value: Value)
        requires
            old(self).wf(),
        ensures
            final(self).wf(),
            final(self)@ == upsert(old(self)@, field_name@, value@),
    {
        self.add_field(field_name, value);
    }

    /// Copies every field of `record` into this one; on a shared name the
    /// value of `record` wins.
    pub fn extend_fields(&mut self, record: &Record)
        requires
            old(self).wf(),
        ensures
            final(self).wf(),
            final(self)@ == extend_row(old(self)@, record@),
    {
        let mut i: usize = 0;
        while i < record.fields.len()
            invariant
                i <= record@.len(),
                self.wf(),
                self@ == extend_row(old(self)@, record@.take(i as int)),
            decreases record.fields.len() - i,
        {
            let (name, value) = &record.fields[i];
            let v = value.copy();
            self.add_field(name.as_str(), v);
            assert(record@.take(i + 1).drop_last() =~= record@.take(i as int));
            i = i + 1;
        }
        assert(record@.take(i as int) =~= record@);
    }

    pub fn get_field_as_value(&self, field_name: &str) -> (r: Option<&Value>)
        requires
            self.wf(),
        ensures
            match r {
                Some(v) => lookup(self@, field_name@) == Some(v@),
                None => lookup(self@, field_name@) is None,
            },
    {
        match self.position(field_name) {
            Some(i) => {
                proof {
                    lemma_lookup_at(self@, i as int);
                }
                Some(&self.fields[i].1)
            },
            None => None,
        }
    }

    /// The value of `field_name`, which must be of type `expected`.
    pub fn get_field(&self, field_name: &str, expected: ValueType) -> (r: Result<Value, TableError>)
        requires
            self.wf(),
        ensures
            r is Err <==> typed_lookup(self@, field_name@, expected) is Err,
            r is Err ==> r->Err_0 == typed_lookup(self@, field_name@, expected)->Err_0,
            r is Ok ==> typed_lookup(self@, field_name@, expected) == Ok::<ValueView, TableError>(r->Ok_0@),
    {
        match self.get_field_as_value(field_name) {
            None => Err(TableError::InvalidField),
            Some(v) => {
                if v.to_type() == expected {
                    Ok(v.copy())
                } else {
                    Err(TableError::MismatchedTypes)
                }
            },
        }
    }

    pub fn contains_field(&self, field_name: &str) -> (r: bool)
        requires
            self.wf(),
        ensures
            r == has_field(self@, field_name@),
    {
        self.position(field_name).is_some()
    }

    pub fn field_cnt(&self) -> (r: usize)
        ensures
            r == self@.len(),
    {
        self.fields.len()
    }

    /// The fields, in the order in which each name was first added.
    pub fn iter(&self) -> (r: &Vec<(String, Value)>)
        ensures
            r@.map_values(|p: (String, Value)| (p.0@, p.1@)) == self@,
    {
        &self.fields
    }

    pub fn into_iter(self) -> (r: Vec<(String, Value)>)
        ensures
            r@.map_values(|p: (String, Value)| (p.0@, p.1@)) == self@,
    {
        self.fields
    }
}

/// A typed field read: `InvalidField` when absent, `MismatchedTypes` when the
/// stored value is of another type.
pub open spec fn typed_lookup(r: Row, k: Seq<char>, expected: ValueType) -> Result<ValueView, TableError> {
    match lookup(r, k) {
        None => Err(TableError::InvalidField),
        Some(v) => if v.ty() == expected {
            Ok(v)
        } else {
            Err(TableError::MismatchedTypes)
        },
    }
}

} // verus!
