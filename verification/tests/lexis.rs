use pinax::lexis::{
    BinaryOperator, ColumnDef, ColumnName, DateTimeValue, Expr, LexisError, Nullability, RealValue,
    SqlType, TableDef, TableName, TextMaxLen, UnaryOperator, Value,
};

fn column_name(name: &str) -> ColumnName {
    ColumnName::try_from(name).expect("valid identifier")
}

fn table_name(name: &str) -> TableName {
    TableName::try_from(name).expect("valid identifier")
}

fn takes_table_name(_: &TableName) {}

fn id_column() -> ColumnDef {
    ColumnDef::new(
        column_name("id"),
        SqlType::Integer,
        Nullability::NotNull,
        None,
    )
    .expect("INTEGER NOT NULL with no length bound is always valid")
}

fn text_column(name: &str, nullability: Nullability, bound: Option<u32>) -> ColumnDef {
    let bound = bound.map(|n| TextMaxLen::try_from(n).expect("valid bound"));
    ColumnDef::new(column_name(name), SqlType::Text, nullability, bound).expect("valid column")
}

// ---- expressions ----

#[test]
fn literal_wraps_a_value() {
    let expr = Expr::Literal(Value::Integer(1));
    assert_eq!(expr, Expr::Literal(Value::Integer(1)));
}

#[test]
fn binary_op_nests_boxed_operands() {
    let expr = Expr::BinaryOp {
        op: BinaryOperator::Eq,
        left: Box::new(Expr::Column(
            ColumnName::try_from("id").expect("valid identifier"),
        )),
        right: Box::new(Expr::Literal(Value::Integer(1))),
    };
    let Expr::BinaryOp { op, .. } = expr else {
        panic!("constructed a BinaryOp");
    };
    assert_eq!(op, BinaryOperator::Eq);
}

#[test]
fn cast_carries_target_type() {
    let expr = Expr::Cast {
        operand: Box::new(Expr::Column(
            ColumnName::try_from("id").expect("valid identifier"),
        )),
        target: SqlType::Text,
    };
    let Expr::Cast { target, .. } = expr else {
        panic!("constructed a Cast");
    };
    assert_eq!(target, SqlType::Text);
}

#[test]
fn is_null_and_is_not_null_wrap_one_operand() {
    let column = || {
        Box::new(Expr::Column(
            ColumnName::try_from("id").expect("valid identifier"),
        ))
    };
    assert_eq!(Expr::IsNull(column()), Expr::IsNull(column()));
    assert_ne!(Expr::IsNull(column()), Expr::IsNotNull(column()));
}

#[test]
fn cloned_expression_equals_its_source() {
    let column = Expr::Column(column_name("id"));
    let negated = Expr::UnaryOp {
        op: UnaryOperator::Neg,
        operand: Box::new(Expr::Literal(Value::Integer(7))),
    };
    let cast = Expr::Cast {
        operand: Box::new(column.clone()),
        target: SqlType::Real,
    };
    let whole = Expr::BinaryOp {
        op: BinaryOperator::And,
        left: Box::new(Expr::IsNull(Box::new(cast))),
        right: Box::new(Expr::IsNotNull(Box::new(negated))),
    };
    assert_eq!(whole.clone(), whole);
    assert_ne!(whole.clone(), column);
}

// ---- identifiers ----

#[test]
fn column_name_accepts_non_empty() {
    let name = ColumnName::try_from("id").expect("non-empty identifier is valid");
    assert_eq!(name.as_str(), "id");
}

#[test]
fn column_name_rejects_empty() {
    let err = ColumnName::try_from("").expect_err("empty identifier must be rejected");
    assert!(matches!(
        err,
        LexisError::EmptyIdentifier { kind: "column", .. }
    ));
}

#[test]
fn table_name_accepts_non_empty() {
    let name = TableName::try_from("media_items").expect("non-empty identifier is valid");
    assert_eq!(name.as_str(), "media_items");
}

#[test]
fn table_name_rejects_empty() {
    let err = TableName::try_from("").expect_err("empty identifier must be rejected");
    assert!(matches!(
        err,
        LexisError::EmptyIdentifier { kind: "table", .. }
    ));
}

#[test]
fn display_matches_as_str() {
    let column = ColumnName::try_from("added_at").expect("valid identifier");
    assert_eq!(column.to_string(), "added_at");
    let table = TableName::try_from("media_items").expect("valid identifier");
    assert_eq!(table.to_string(), "media_items");
}

#[test]
fn identifiers_are_lent_as_strings() {
    let column = column_name("added_at");
    let lent: &str = column.as_ref();
    assert_eq!(lent, "added_at");
    let table = table_name("t");
    let lent: &str = table.as_ref();
    assert_eq!(lent, "t");
}

#[test]
fn column_name_and_table_name_are_distinct_types() {
    let column = ColumnName::try_from("id").expect("valid identifier");
    let table = TableName::try_from("id").expect("valid identifier");
    takes_table_name(&table);
    assert_eq!(column.as_str(), table.as_str());
}

#[test]
fn cloned_identifier_keeps_its_characters() {
    let long = "a_rather_long_identifier_that_does_not_fit_inline";
    assert_eq!(column_name(long).clone().as_str(), long);
    assert_eq!(table_name("grün").clone().as_str(), "grün");
    assert_eq!(column_name("a").clone(), column_name("a"));
    assert_ne!(column_name("a").clone(), column_name("b"));
}

// ---- schema ----

#[test]
fn text_max_len_accepts_positive() {
    let bound = TextMaxLen::try_from(255).expect("positive length is valid");
    assert_eq!(bound.get(), 255);
}

#[test]
fn text_max_len_rejects_zero() {
    let err = TextMaxLen::try_from(0).expect_err("zero length must be rejected");
    assert!(matches!(err, LexisError::TextMaxLenZero { .. }));
}

#[test]
fn column_def_rejects_max_len_on_non_text() {
    let bound = TextMaxLen::try_from(10).expect("valid bound");
    let err = ColumnDef::new(
        ColumnName::try_from("id").expect("valid identifier"),
        SqlType::Integer,
        Nullability::NotNull,
        Some(bound),
    )
    .expect_err("max length on INTEGER must be rejected");
    assert!(matches!(err, LexisError::TextMaxLenOnNonText { .. }));
}

#[test]
fn column_def_accepts_max_len_on_text() {
    let bound = TextMaxLen::try_from(255).expect("valid bound");
    let column = ColumnDef::new(
        ColumnName::try_from("title").expect("valid identifier"),
        SqlType::Text,
        Nullability::Nullable,
        Some(bound),
    )
    .expect("max length on TEXT is valid");
    assert_eq!(column.text_max_len(), Some(bound));
}

#[test]
fn check_value_rejects_null_on_not_null_column() {
    let column = id_column();
    let err = column
        .check_value(&Value::Null)
        .expect_err("NULL on NOT NULL column must be rejected");
    assert!(matches!(err, LexisError::NullNotAllowed { .. }));
}

#[test]
fn check_value_accepts_null_on_nullable_column() {
    let column = ColumnDef::new(
        ColumnName::try_from("note").expect("valid identifier"),
        SqlType::Text,
        Nullability::Nullable,
        None,
    )
    .expect("valid column");
    assert!(column.check_value(&Value::Null).is_ok());
}

#[test]
fn check_value_rejects_type_mismatch() {
    let column = id_column();
    let err = column
        .check_value(&Value::Text(String::from("nope")))
        .expect_err("TEXT into INTEGER column must be rejected");
    assert!(matches!(
        err,
        LexisError::TypeMismatch {
            expected: SqlType::Integer,
            actual: SqlType::Text,
            ..
        }
    ));
}

#[test]
fn check_value_accepts_matching_type() {
    let column = id_column();
    assert!(column.check_value(&Value::Integer(42)).is_ok());
}

#[test]
fn check_value_rejects_text_over_max_len() {
    let bound = TextMaxLen::try_from(3).expect("valid bound");
    let column = ColumnDef::new(
        ColumnName::try_from("code").expect("valid identifier"),
        SqlType::Text,
        Nullability::NotNull,
        Some(bound),
    )
    .expect("valid column");
    let err = column
        .check_value(&Value::Text(String::from("abcd")))
        .expect_err("4 characters must exceed a bound of 3");
    assert!(matches!(err, LexisError::TextTooLong { .. }));
}

#[test]
fn check_value_counts_characters_not_bytes() {
    let bound = TextMaxLen::try_from(2).expect("valid bound");
    let column = ColumnDef::new(
        ColumnName::try_from("code").expect("valid identifier"),
        SqlType::Text,
        Nullability::NotNull,
        Some(bound),
    )
    .expect("valid column");
    assert!(column
        .check_value(&Value::Text(String::from("\u{1F600}\u{1F600}")))
        .is_ok());
}

#[test]
fn table_def_rejects_empty_columns() {
    let err = TableDef::new(TableName::try_from("t").expect("valid identifier"), vec![])
        .expect_err("zero columns must be rejected");
    assert!(matches!(err, LexisError::EmptyColumnList { .. }));
}

#[test]
fn table_def_rejects_duplicate_column_names() {
    let err = TableDef::new(
        TableName::try_from("t").expect("valid identifier"),
        vec![id_column(), id_column()],
    )
    .expect_err("duplicate column name must be rejected");
    assert!(matches!(err, LexisError::DuplicateColumn { .. }));
}

#[test]
fn table_def_accepts_distinct_columns_and_looks_up_by_name() {
    let title = ColumnDef::new(
        ColumnName::try_from("title").expect("valid identifier"),
        SqlType::Text,
        Nullability::Nullable,
        None,
    )
    .expect("valid column");
    let table = TableDef::new(
        TableName::try_from("t").expect("valid identifier"),
        vec![id_column(), title],
    )
    .expect("distinct columns are valid");
    assert_eq!(table.columns().len(), 2);
    assert_eq!(
        table.column("title").map(ColumnDef::sql_type),
        Some(SqlType::Text)
    );
    assert!(table.column("missing").is_none());
}

#[test]
fn schema_errors_say_what_was_wrong() {
    let bound = TextMaxLen::try_from(10).expect("valid bound");
    assert_eq!(
        ColumnDef::new(
            column_name("flag"),
            SqlType::Boolean,
            Nullability::Nullable,
            Some(bound)
        ),
        Err(LexisError::TextMaxLenOnNonText {
            sql_type: SqlType::Boolean
        })
    );
    let code = text_column("code", Nullability::NotNull, Some(3));
    assert_eq!(
        code.check_value(&Value::Null),
        Err(LexisError::NullNotAllowed {
            column: String::from("code")
        })
    );
    assert_eq!(
        code.check_value(&Value::Boolean(true)),
        Err(LexisError::TypeMismatch {
            column: String::from("code"),
            expected: SqlType::Text,
            actual: SqlType::Boolean,
        })
    );
    assert_eq!(
        code.check_value(&Value::Text(String::from("äöüß"))),
        Err(LexisError::TextTooLong {
            column: String::from("code"),
            max_len: 3,
            actual_len: 4,
        })
    );
    assert_eq!(
        code.check_value(&Value::Text(String::from("äöü"))),
        Ok(())
    );
    assert_eq!(
        TableDef::new(table_name("t"), vec![]),
        Err(LexisError::EmptyColumnList {
            table: String::from("t")
        })
    );
}

#[test]
fn first_repeated_column_is_the_one_reported() {
    let columns = vec![
        text_column("a", Nullability::Nullable, None),
        text_column("b", Nullability::Nullable, None),
        text_column("b", Nullability::NotNull, None),
        text_column("a", Nullability::NotNull, None),
    ];
    assert_eq!(
        TableDef::new(table_name("t"), columns),
        Err(LexisError::DuplicateColumn {
            table: String::from("t"),
            column: String::from("b"),
        })
    );
}

#[test]
fn accessors_give_back_what_was_declared() {
    let bound = TextMaxLen::try_from(9).expect("valid bound");
    let column = ColumnDef::new(
        column_name("title"),
        SqlType::Text,
        Nullability::NotNull,
        Some(bound),
    )
    .expect("valid column");
    assert_eq!(column.name().as_str(), "title");
    assert_eq!(column.sql_type(), SqlType::Text);
    assert_eq!(column.nullability(), Nullability::NotNull);
    let table = TableDef::new(table_name("t"), vec![id_column(), column]).expect("valid table");
    assert_eq!(table.name().as_str(), "t");
    assert_eq!(table.columns()[1].name().as_str(), "title");
    assert_eq!(
        table.column("id").map(|c| c.name().to_string()),
        Some(String::from("id"))
    );
}

// ---- types ----

#[test]
fn check_comparable_accepts_identical_types() {
    assert!(SqlType::Text.check_comparable(SqlType::Text).is_ok());
}

#[test]
fn check_comparable_accepts_integer_real_either_direction() {
    assert!(SqlType::Integer.check_comparable(SqlType::Real).is_ok());
    assert!(SqlType::Real.check_comparable(SqlType::Integer).is_ok());
}

#[test]
fn check_comparable_rejects_integer_text() {
    let err = SqlType::Integer
        .check_comparable(SqlType::Text)
        .expect_err("INTEGER vs TEXT must be rejected");
    assert!(matches!(err, LexisError::IncomparableTypes { .. }));
}

#[test]
fn check_comparable_rejects_boolean_integer() {
    let err = SqlType::Boolean
        .check_comparable(SqlType::Integer)
        .expect_err("BOOLEAN vs INTEGER must be rejected");
    assert!(matches!(err, LexisError::IncomparableTypes { .. }));
}

#[test]
fn display_matches_sql_keyword() {
    assert_eq!(SqlType::Integer.to_string(), "INTEGER");
    assert_eq!(SqlType::Real.to_string(), "REAL");
    assert_eq!(SqlType::Text.to_string(), "TEXT");
    assert_eq!(SqlType::Blob.to_string(), "BLOB");
    assert_eq!(SqlType::Boolean.to_string(), "BOOLEAN");
    assert_eq!(SqlType::Datetime.to_string(), "DATETIME");
}

#[test]
fn comparability_is_symmetric_and_reflexive() {
    let all = [
        SqlType::Integer,
        SqlType::Real,
        SqlType::Text,
        SqlType::Blob,
        SqlType::Boolean,
        SqlType::Datetime,
    ];
    for left in all {
        assert!(left.check_comparable(left).is_ok());
        for right in all {
            assert_eq!(
                left.check_comparable(right).is_ok(),
                right.check_comparable(left).is_ok()
            );
        }
    }
    assert_eq!(
        SqlType::Blob.check_comparable(SqlType::Datetime),
        Err(LexisError::IncomparableTypes {
            left: SqlType::Blob,
            right: SqlType::Datetime
        })
    );
}

// ---- values ----

#[test]
fn real_value_accepts_finite() {
    let real = RealValue::try_from(3.5_f64.to_bits()).expect("finite value is valid");
    assert!((f64::from_bits(real.get()) - 3.5).abs() < f64::EPSILON);
}

#[test]
fn real_value_accepts_infinity() {
    assert!(RealValue::try_from(f64::INFINITY.to_bits()).is_ok());
}

#[test]
fn real_value_rejects_nan() {
    let err = RealValue::try_from(f64::NAN.to_bits()).expect_err("NaN must be rejected");
    assert!(matches!(err, LexisError::NanReal { .. }));
}

#[test]
fn value_try_from_f64_rejects_nan() {
    let err = Value::try_from(f64::NAN.to_bits()).expect_err("NaN must be rejected");
    assert!(matches!(err, LexisError::NanReal { .. }));
}

#[test]
fn real_value_accepts_exactly_what_is_not_nan() {
    let patterns = [
        0u64,
        1,
        0x000F_FFFF_FFFF_FFFF,
        0x7FEF_FFFF_FFFF_FFFF,
        0x7FF0_0000_0000_0000,
        0x7FF0_0000_0000_0001,
        0x7FF8_0000_0000_0000,
        0x7FFF_FFFF_FFFF_FFFF,
        0x8000_0000_0000_0000,
        0xFFF0_0000_0000_0000,
        0xFFF0_0000_0000_0001,
        0xFFFF_FFFF_FFFF_FFFF,
    ];
    for bits in patterns {
        assert_eq!(
            RealValue::try_from(bits).is_ok(),
            !f64::from_bits(bits).is_nan()
        );
    }
    assert_eq!(
        RealValue::try_from(0x7FF0_0000_0000_0001),
        Err(LexisError::NanReal {
            value: 0x7FF0_0000_0000_0001
        })
    );
}

#[test]
fn real_equality_is_that_of_doubles() {
    let real = |x: f64| RealValue::try_from(x.to_bits()).expect("not NaN");
    assert_eq!(real(0.0), real(-0.0));
    assert_eq!(real(1.5), real(1.5));
    assert_ne!(real(1.5), real(-1.5));
    assert_ne!(real(0.0), real(f64::MIN_POSITIVE));
}

#[test]
fn datetime_value_round_trips_through_i64() {
    let dt = DateTimeValue::from(1_700_000_000_000_000_000_i64);
    assert_eq!(i64::from(dt), 1_700_000_000_000_000_000_i64);
}

#[test]
fn datetime_is_shown_in_decimal() {
    assert_eq!(DateTimeValue::from(0).to_string(), "0");
    assert_eq!(DateTimeValue::from(-1).to_string(), "-1");
    assert_eq!(
        DateTimeValue::from(1_700_000_000_000_000_000_i64).to_string(),
        "1700000000000000000"
    );
    assert_eq!(
        DateTimeValue::from(i64::MIN).to_string(),
        "-9223372036854775808"
    );
    assert_eq!(
        DateTimeValue::from(i64::MAX).to_string(),
        "9223372036854775807"
    );
}

#[test]
fn sql_type_maps_each_variant() {
    assert_eq!(Value::Integer(1).sql_type(), Some(SqlType::Integer));
    assert_eq!(
        Value::Real(RealValue::try_from(1.0_f64.to_bits()).expect("valid")).sql_type(),
        Some(SqlType::Real)
    );
    assert_eq!(
        Value::Text(String::from("x")).sql_type(),
        Some(SqlType::Text)
    );
    assert_eq!(Value::Blob(vec![1]).sql_type(), Some(SqlType::Blob));
    assert_eq!(Value::Boolean(true).sql_type(), Some(SqlType::Boolean));
    assert_eq!(
        Value::Datetime(DateTimeValue::from(0)).sql_type(),
        Some(SqlType::Datetime)
    );
}

#[test]
fn null_has_no_sql_type() {
    assert_eq!(Value::Null.sql_type(), None);
    assert!(Value::Null.is_null());
}

#[test]
fn non_null_values_report_is_null_false() {
    assert!(!Value::Integer(0).is_null());
}

#[test]
fn values_are_made_from_plain_ones() {
    assert_eq!(Value::from(7_i64), Value::Integer(7));
    assert_eq!(Value::from(true), Value::Boolean(true));
    assert_eq!(
        Value::from(String::from("t")),
        Value::Text(String::from("t"))
    );
    assert_eq!(Value::from(vec![1u8, 2]), Value::Blob(vec![1, 2]));
    let dt = DateTimeValue::from(5);
    assert_eq!(Value::from(dt), Value::Datetime(dt));
    assert_eq!(
        Value::try_from(2.5_f64.to_bits()),
        Ok(Value::Real(
            RealValue::try_from(2.5_f64.to_bits()).expect("finite")
        ))
    );
}

#[test]
fn cloned_table_has_the_same_columns() {
    let table = TableDef::new(
        TableName::try_from("t").expect("valid identifier"),
        vec![id_column()],
    )
    .expect("one column is valid");
    let copy = table.clone();
    assert_eq!(copy, table);
    assert_eq!(copy.columns(), &[id_column()]);
}
