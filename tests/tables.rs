use indexmap::IndexMap;
use typed_tables::compare::{create_comp_func, Operator};
use typed_tables::db::{DBError, DB};
use typed_tables::record::Record;
use typed_tables::table::Table;
use typed_tables::value::{TableError, ToType, Value, ValueType};

fn schema(pairs: &[(&str, ValueType)]) -> IndexMap<String, ValueType> {
    let mut m = IndexMap::new();
    for (k, t) in pairs {
        m.insert(k.to_string(), *t);
    }
    m
}

fn record(pairs: Vec<(&str, Value)>) -> Record {
    let mut r = Record::new();
    for (k, v) in pairs {
        r.add_field(k, v);
    }
    r
}

fn s(text: &str) -> Value {
    Value::Str(text.to_string())
}

fn people() -> Table {
    let mut t = Table::new(schema(&[
        ("name", ValueType::Str),
        ("age", ValueType::UInt),
    ]));
    t.add_records(vec![
        record(vec![("name", s("ann")), ("age", Value::UInt(15))]),
        record(vec![("name", s("bob")), ("age", Value::UInt(45))]),
        record(vec![("name", s("cy")), ("age", Value::UInt(20))]),
        record(vec![("name", s("dee")), ("age", Value::UInt(33))]),
    ])
    .unwrap();
    t
}

fn name_age_db() -> DB {
    let mut db = DB::new();
    db.add_table("name table", schema(&[("ID", ValueType::UInt), ("name", ValueType::Str)]));
    db.add_records(
        "name table",
        vec![
            record(vec![("ID", Value::UInt(0)), ("name", s("nick"))]),
            record(vec![("ID", Value::UInt(1)), ("name", s("james"))]),
        ],
    )
    .unwrap();
    db.add_table("age table", schema(&[("ID", ValueType::UInt), ("age", ValueType::UInt)]));
    db.add_records(
        "age table",
        vec![
            record(vec![("ID", Value::UInt(0)), ("age", Value::UInt(15))]),
            record(vec![("age", Value::UInt(45)), ("ID", Value::UInt(1))]),
        ],
    )
    .unwrap();
    db
}

#[test]
fn value_classification_and_conversion() {
    assert!(s("x").to_type() == ValueType::Str);
    assert!(Value::Int(-3).to_type() == ValueType::Int);
    assert!(Value::UInt(3).to_type() == ValueType::UInt);
    assert!(Value::from_float_bits(1.5f32.to_bits()).to_type() == ValueType::Float);
    assert_eq!(Value::Int(-3).as_int(), Ok(-3));
    assert_eq!(Value::Int(-3).as_uint(), Err(TableError::MismatchedTypes));
    assert_eq!(Value::UInt(7).as_uint(), Ok(7));
    assert_eq!(s("hi").as_str().unwrap(), "hi");
    assert_eq!(Value::UInt(7).as_str(), Err(TableError::MismatchedTypes));
    assert_eq!(Value::Float(2.5f32.to_bits()).as_float_bits().map(f32::from_bits), Ok(2.5));
    assert_eq!(Value::from(5u32), Value::UInt(5));
    assert_eq!(Value::from(-5i32), Value::Int(-5));
    assert_eq!(Value::from("a".to_string()), s("a"));
    assert!(Value::UInt(1) != Value::Int(1));
}

#[test]
fn record_add_field_overwrites() {
    let mut r = record(vec![("a", Value::UInt(1)), ("b", s("x"))]);
    r.add_field("a", Value::Int(-2));
    assert_eq!(r.field_cnt(), 2);
    assert_eq!(r.get_field_as_value("a"), Some(&Value::Int(-2)));
    assert_eq!(r.get_field_as_value("c"), None);
    assert!(r.contains_field("b"));
    assert!(!r.contains_field("c"));
    let names: Vec<&str> = r.iter().iter().map(|(k, _)| k.as_str()).collect();
    assert_eq!(names, vec!["a", "b"]);
}

#[test]
fn record_get_field_errors() {
    let r = record(vec![("a", Value::UInt(1))]);
    assert_eq!(r.get_field("a", ValueType::UInt), Ok(Value::UInt(1)));
    assert_eq!(r.get_field("a", ValueType::Int), Err(TableError::MismatchedTypes));
    assert_eq!(r.get_field("z", ValueType::UInt), Err(TableError::InvalidField));
}

#[test]
fn record_extend_fields_last_writer_wins() {
    let mut r = record(vec![("a", Value::UInt(1)), ("b", Value::UInt(2))]);
    let o = record(vec![("b", Value::UInt(20)), ("c", Value::UInt(30))]);
    r.extend_fields(&o);
    assert_eq!(r.field_cnt(), 3);
    assert_eq!(r.get_field_as_value("a"), Some(&Value::UInt(1)));
    assert_eq!(r.get_field_as_value("b"), Some(&Value::UInt(20)));
    assert_eq!(r.get_field_as_value("c"), Some(&Value::UInt(30)));
    let fields = r.into_iter();
    assert_eq!(fields[2].0, "c");
}

#[test]
fn typed_table_enforces_schema() {
    let mut t = Table::new(schema(&[("ID", ValueType::UInt), ("name", ValueType::Str)]));
    assert_eq!(
        t.add_record(record(vec![("ID", Value::UInt(0))])),
        Err(TableError::IncorrectFieldNames)
    );
    assert_eq!(
        t.add_record(record(vec![("ID", Value::Int(0)), ("name", s("n"))])),
        Err(TableError::IncorrectFieldTypes)
    );
    assert_eq!(t.record_cnt(), 0);
    assert_eq!(
        t.add_record(record(vec![("name", s("n")), ("ID", Value::UInt(0)), ("extra", Value::Int(9))])),
        Ok(())
    );
    assert_eq!(t.record_cnt(), 1);
}

#[test]
fn first_failing_schema_field_decides_the_error() {
    let mut t = Table::new(schema(&[("a", ValueType::UInt), ("b", ValueType::UInt)]));
    assert_eq!(
        t.add_record(record(vec![("a", s("wrong"))])),
        Err(TableError::IncorrectFieldTypes)
    );
    assert_eq!(
        t.add_record(record(vec![("b", s("wrong"))])),
        Err(TableError::IncorrectFieldNames)
    );
}

#[test]
fn generic_table_adopts_schema_from_first_record() {
    let mut t = Table::new_generic();
    assert!(t.field_types().is_none());
    t.add_record(record(vec![("z", Value::UInt(1)), ("a", s("x"))])).unwrap();
    let adopted: Vec<(String, ValueType)> =
        t.field_types().unwrap().iter().map(|(k, v)| (k.clone(), *v)).collect();
    assert_eq!(adopted, vec![("z".to_string(), ValueType::UInt), ("a".to_string(), ValueType::Str)]);
    assert_eq!(
        t.add_record(record(vec![("z", Value::Int(1)), ("a", s("y"))])),
        Err(TableError::IncorrectFieldTypes)
    );
    assert_eq!(t.record_cnt(), 1);
}

#[test]
fn add_records_stops_at_first_error() {
    let mut t = Table::new(schema(&[("a", ValueType::UInt)]));
    let r = t.add_records(vec![
        record(vec![("a", Value::UInt(1))]),
        record(vec![("a", Value::Int(2))]),
        record(vec![("a", Value::UInt(3))]),
    ]);
    assert_eq!(r, Err(TableError::IncorrectFieldTypes));
    assert_eq!(t.record_cnt(), 1);
    assert_eq!(t.get_field(0, "a", ValueType::UInt), Ok(Value::UInt(1)));
}

#[test]
fn remove_and_get_record() {
    let mut t = people();
    assert!(t.get_record(4).is_none());
    assert!(t.remove_record(4).is_none());
    let removed = t.remove_record(1).unwrap();
    assert_eq!(removed.get_field_as_value("name"), Some(&s("bob")));
    assert_eq!(t.record_cnt(), 3);
    assert_eq!(t.get_record(1).unwrap().get_field_as_value("name"), Some(&s("cy")));
}

#[test]
fn change_field_then_get_field() {
    let mut t = people();
    assert_eq!(t.change_field(1, "age", Value::UInt(46)), Ok(()));
    assert_eq!(t.get_field(1, "age", ValueType::UInt), Ok(Value::UInt(46)));
    assert_eq!(t.change_field(1, "age", s("old")), Err(TableError::MismatchedTypes));
    assert_eq!(t.get_field(1, "age", ValueType::UInt), Ok(Value::UInt(46)));
    assert_eq!(t.change_field(1, "height", Value::UInt(2)), Err(TableError::InvalidField));
    assert_eq!(t.get_field(1, "age", ValueType::Str), Err(TableError::MismatchedTypes));
    assert_eq!(t.get_field(1, "height", ValueType::UInt), Err(TableError::InvalidField));
}

#[test]
fn get_fields_projects_in_requested_order() {
    let mut t = Table::new(schema(&[
        ("a", ValueType::UInt),
        ("b", ValueType::Str),
        ("c", ValueType::Int),
    ]));
    t.add_record(record(vec![("a", Value::UInt(1)), ("b", s("x")), ("c", Value::Int(-1))])).unwrap();
    t.add_record(record(vec![("a", Value::UInt(2)), ("b", s("y")), ("c", Value::Int(-2))])).unwrap();
    let p = t.get_fields(vec!["b", "a"]).unwrap();
    assert_eq!(p.record_cnt(), 2);
    let order: Vec<String> = p.field_types().unwrap().keys().cloned().collect();
    assert_eq!(order, vec!["b".to_string(), "a".to_string()]);
    for (i, r) in p.iter().iter().enumerate() {
        assert_eq!(r.field_cnt(), 2);
        assert!(!r.contains_field("c"));
        assert_eq!(r.get_field_as_value("a"), Some(&Value::UInt(i as u32 + 1)));
    }
    assert_eq!(p.get_record(1).unwrap().get_field_as_value("b"), Some(&s("y")));
    assert!(matches!(t.get_fields(vec!["a", "nope"]), Err(TableError::InvalidField)));
}

#[test]
fn get_fields_on_table_without_schema() {
    let t = Table::new_generic();
    assert!(matches!(t.get_fields(vec!["a"]), Err(TableError::TableHasNoFields)));
    let e = t.get_fields(vec![]).unwrap();
    assert_eq!(e.record_cnt(), 0);
    assert!(e.field_types().is_none());
}

#[test]
fn get_records_where_greater_than() {
    let t = people();
    let older = t.get_records_where("age", Operator::GreaterThan, Value::UInt(20)).unwrap();
    let names: Vec<Value> = older
        .iter()
        .iter()
        .map(|r| r.get_field_as_value("name").unwrap().clone())
        .collect();
    assert_eq!(names, vec![s("bob"), s("dee")]);
    assert!(older.field_types().is_some());
    let none = t.get_records_where("age", Operator::GreaterThan, Value::UInt(100)).unwrap();
    assert_eq!(none.record_cnt(), 0);
    let exact = t.get_records_where("age", Operator::EqualTo, Value::UInt(20)).unwrap();
    assert_eq!(exact.record_cnt(), 1);
    let young = t.get_records_where("age", Operator::LessThan, Value::UInt(20)).unwrap();
    assert_eq!(young.get_record(0).unwrap().get_field_as_value("name"), Some(&s("ann")));
}

#[test]
fn get_records_where_errors() {
    let t = people();
    assert!(matches!(
        t.get_records_where("height", Operator::EqualTo, Value::UInt(1)),
        Err(TableError::InvalidField)
    ));
    assert!(matches!(
        t.get_records_where("age", Operator::EqualTo, Value::Int(1)),
        Err(TableError::MismatchedTypes)
    ));
    let g = Table::new_generic();
    assert_eq!(g.get_records_where("x", Operator::EqualTo, Value::UInt(1)).unwrap().record_cnt(), 0);
}

#[test]
fn get_records_where_on_text_is_lexicographic() {
    let t = people();
    let before_c = t.get_records_where("name", Operator::LessThan, s("c")).unwrap();
    assert_eq!(before_c.record_cnt(), 2);
    let after_bob = t.get_records_where("name", Operator::GreaterThan, s("bob")).unwrap();
    assert_eq!(after_bob.record_cnt(), 2);
    assert_eq!(after_bob.get_record(0).unwrap().get_field_as_value("name"), Some(&s("cy")));
}

#[test]
fn float_fields_compare_for_equality_only() {
    let mut t = Table::new(schema(&[("w", ValueType::Float)]));
    t.add_record(record(vec![("w", Value::from_float_bits(1.5f32.to_bits()))])).unwrap();
    t.add_record(record(vec![("w", Value::from_float_bits(2.5f32.to_bits()))])).unwrap();
    let c = Value::from_float_bits(2.5f32.to_bits());
    assert!(matches!(
        t.get_records_where("w", Operator::GreaterThan, c.clone()),
        Err(TableError::InvalidOperator)
    ));
    assert_eq!(t.get_records_where("w", Operator::EqualTo, c).unwrap().record_cnt(), 1);
}

#[test]
fn get_records_where_eql_matches_by_value() {
    let t = people();
    let bob = t.get_records_where_eql("name", s("bob")).unwrap();
    assert_eq!(bob.record_cnt(), 1);
    assert_eq!(bob.get_field(0, "age", ValueType::UInt), Ok(Value::UInt(45)));
    let other_type = t.get_records_where_eql("name", Value::UInt(1)).unwrap();
    assert_eq!(other_type.record_cnt(), 0);
    assert!(matches!(t.get_records_where_eql("nope", s("bob")), Err(TableError::InvalidField)));
}

#[test]
fn comparison_functions() {
    let gt = create_comp_func(Operator::GreaterThan);
    let eq = create_comp_func(Operator::EqualTo);
    let lt = create_comp_func(Operator::LessThan);
    assert!(gt.call(&Value::Int(3), &Value::Int(-3)));
    assert!(!gt.call(&Value::Int(-3), &Value::Int(3)));
    assert!(eq.call(&s("a"), &s("a")));
    assert!(lt.call(&s("ab"), &s("b")));
    assert!(lt.call(&s("a"), &s("ab")));
    assert!(!lt.call(&Value::UInt(1), &Value::Int(2)));
}

#[test]
fn join_scenario_merges_on_id() {
    let db = name_age_db();
    let joined = db.join_tables("name table", "age table", "ID").unwrap();
    assert_eq!(joined.record_cnt(), 2);
    let expected = [(0u32, "nick", 15u32), (1, "james", 45)];
    for (i, (id, name, age)) in expected.iter().enumerate() {
        let r = joined.get_record(i).unwrap();
        assert_eq!(r.field_cnt(), 3);
        assert_eq!(r.get_field_as_value("ID"), Some(&Value::UInt(*id)));
        assert_eq!(r.get_field_as_value("name"), Some(&s(name)));
        assert_eq!(r.get_field_as_value("age"), Some(&Value::UInt(*age)));
    }
    assert_eq!(db.get_table("name table").unwrap().record_cnt(), 2);
}

#[test]
fn join_with_undeclared_key_is_invalid_foreign_key() {
    let db = name_age_db();
    assert!(matches!(
        db.join_tables("name table", "age table", "name"),
        Err(DBError::InvalidForeignKey)
    ));
    assert!(matches!(
        db.join_tables("nope", "age table", "ID"),
        Err(DBError::InvalidTable)
    ));
    assert!(matches!(
        db.join_tables("name table", "nope", "ID"),
        Err(DBError::InvalidTable)
    ));
}

#[test]
fn join_keeps_one_row_per_primary_row_and_later_matches_win() {
    let mut db = DB::new();
    db.add_table("p", schema(&[("k", ValueType::UInt)]));
    db.add_records("p", vec![record(vec![("k", Value::UInt(7))])]).unwrap();
    db.add_table("f", schema(&[("k", ValueType::UInt), ("v", ValueType::Str)]));
    db.add_records(
        "f",
        vec![
            record(vec![("k", Value::UInt(7)), ("v", s("first"))]),
            record(vec![("k", Value::UInt(8)), ("v", s("other"))]),
            record(vec![("k", Value::UInt(7)), ("v", s("second"))]),
        ],
    )
    .unwrap();
    let joined = db.join_tables("p", "f", "k").unwrap();
    assert_eq!(joined.record_cnt(), 1);
    assert_eq!(joined.get_field(0, "v", ValueType::Str), Ok(s("second")));
}

#[test]
fn join_reports_rows_that_disagree_with_the_adopted_schema() {
    let mut db = name_age_db();
    db.add_record("name table", record(vec![("ID", Value::UInt(9)), ("name", s("zed"))])).unwrap();
    assert!(matches!(
        db.join_tables("name table", "age table", "ID"),
        Err(DBError::TableError(TableError::IncorrectFieldNames))
    ));
}

#[test]
fn db_routes_records_by_table_name() {
    let mut db = name_age_db();
    assert_eq!(
        db.add_record("missing", record(vec![("ID", Value::UInt(3))])),
        Err(DBError::InvalidTable)
    );
    assert_eq!(
        db.add_records("missing", vec![]),
        Err(DBError::InvalidTable)
    );
    assert_eq!(
        db.add_record("age table", record(vec![("ID", Value::UInt(3))])),
        Err(DBError::TableError(TableError::IncorrectFieldNames))
    );
    assert_eq!(db.add_record("age table", record(vec![("ID", Value::UInt(3)), ("age", Value::UInt(9))])), Ok(()));
    assert_eq!(db.get_table("age table").unwrap().record_cnt(), 3);
    let names: Vec<&str> = db.iter().iter().map(|(n, _)| n.as_str()).collect();
    assert_eq!(names, vec!["name table", "age table"]);
    db.add_table("age table", schema(&[("ID", ValueType::UInt)]));
    assert_eq!(db.get_table("age table").unwrap().record_cnt(), 0);
    assert_eq!(db.iter().len(), 2);
    assert!(db.get_table("nope").is_none());
    assert_eq!(DBError::from(TableError::InvalidField), DBError::TableError(TableError::InvalidField));
}
