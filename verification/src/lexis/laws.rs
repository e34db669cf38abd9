//! What the type system, the schema vocabulary and the values promise, said
//! of all types, columns, tables and values.

use vstd::prelude::*;

use crate::lexis::ast;
use crate::lexis::ast::Expr;
use crate::lexis::error::LexisError;
use crate::lexis::schema;
use crate::lexis::schema::{ColumnDef, ColumnView, Nullability, TableDef, TextMaxLen};
use crate::lexis::types;
use crate::lexis::types::SqlType;
use crate::lexis::value;
use crate::lexis::value::{DateTimeValue, RealValue, Value, ValueView};

verus! {

// ---- types ----

/// There is exactly one pair of different types that may be compared:
/// `INTEGER` and `REAL`, in either order.
pub proof fn one_pair_of_types_is_comparable(left: SqlType, right: SqlType)
    requires
        left != right,
    ensures
        types::comparable(left, right) <==> set![left, right] == set![
            SqlType::Integer,
            SqlType::Real,
        ],
{
    let pair = set![left, right];
    let numeric = set![SqlType::Integer, SqlType::Real];
    assert(pair.contains(left) && pair.contains(right));
    assert(numeric.contains(SqlType::Integer) && numeric.contains(SqlType::Real));
    if types::comparable(left, right) {
        assert(pair =~= numeric);
    }
    if pair == numeric {
        assert(numeric.contains(left) && numeric.contains(right));
    }
}

/// Any two pairs of different comparable types are the same pair.
pub proof fn comparable_pairs_are_one(a: SqlType, b: SqlType, c: SqlType, d: SqlType)
    requires
        a != b,
        c != d,
        types::comparable(a, b),
        types::comparable(c, d),
    ensures
        a == c && b == d || a == d && b == c,
{
}

/// No two types have the same keyword.
pub proof fn keywords_tell_types_apart(a: SqlType, b: SqlType)
    requires
        types::keyword(a) == types::keyword(b),
    ensures
        a == b,
{
    reveal_strlit("INTEGER");
    reveal_strlit("REAL");
    reveal_strlit("TEXT");
    reveal_strlit("BLOB");
    reveal_strlit("BOOLEAN");
    reveal_strlit("DATETIME");
    assert("INTEGER"@.len() == 7 && "INTEGER"@[0] == 'I');
    assert("REAL"@.len() == 4 && "REAL"@[0] == 'R');
    assert("TEXT"@.len() == 4 && "TEXT"@[0] == 'T');
    assert("BLOB"@.len() == 4 && "BLOB"@[0] == 'B');
    assert("BOOLEAN"@.len() == 7 && "BOOLEAN"@[0] == 'B');
    assert("DATETIME"@.len() == 8);
    assert(types::keyword(a).len() == types::keyword(b).len());
    assert(types::keyword(a)[0] == types::keyword(b)[0]);
}

/// How each type's keyword is spelled.
pub proof fn keywords_are_spelled(t: SqlType)
    ensures
        types::keyword(t) == match t {
            SqlType::Integer => seq!['I', 'N', 'T', 'E', 'G', 'E', 'R'],
            SqlType::Real => seq!['R', 'E', 'A', 'L'],
            SqlType::Text => seq!['T', 'E', 'X', 'T'],
            SqlType::Blob => seq!['B', 'L', 'O', 'B'],
            SqlType::Boolean => seq!['B', 'O', 'O', 'L', 'E', 'A', 'N'],
            SqlType::Datetime => seq!['D', 'A', 'T', 'E', 'T', 'I', 'M', 'E'],
        },
{
    reveal_strlit("INTEGER");
    reveal_strlit("REAL");
    reveal_strlit("TEXT");
    reveal_strlit("BLOB");
    reveal_strlit("BOOLEAN");
    reveal_strlit("DATETIME");
    assert("INTEGER"@ =~= seq!['I', 'N', 'T', 'E', 'G', 'E', 'R']);
    assert("REAL"@ =~= seq!['R', 'E', 'A', 'L']);
    assert("TEXT"@ =~= seq!['T', 'E', 'X', 'T']);
    assert("BLOB"@ =~= seq!['B', 'L', 'O', 'B']);
    assert("BOOLEAN"@ =~= seq!['B', 'O', 'O', 'L', 'E', 'A', 'N']);
    assert("DATETIME"@ =~= seq!['D', 'A', 'T', 'E', 'T', 'I', 'M', 'E']);
}

// ---- tables ----

/// A table's columns are those that it was declared with, one by one, in
/// their order.
pub proof fn columns_stay_in_order(columns: Seq<ColumnDef>, i: int)
    ensures
        schema::column_views(columns).len() == columns.len(),
        0 <= i < columns.len() ==> schema::column_views(columns)[i] == columns[i]@,
{
}

/// A table that is in order has a column, and no two of its columns share a
/// name.
pub proof fn tables_have_different_columns(table: TableDef, i: int, j: int)
    requires
        table.wf(),
    ensures
        table.spec_columns().len() >= 1,
        0 <= i < table.spec_columns().len() && 0 <= j < table.spec_columns().len() && i != j
            ==> table.spec_columns()[i].name != table.spec_columns()[j].name,
{
    if 0 <= i < table.spec_columns().len() && 0 <= j < table.spec_columns().len() && i != j {
        distinct_columns_have_different_names(table.spec_columns(), i, j);
    }
}

/// A column that is in order has a length bound only if it is a `TEXT`
/// column, and a bound that is in order is not zero.
pub proof fn bounds_are_for_texts(column: ColumnDef, bound: TextMaxLen)
    ensures
        column.wf() <==> (column@.text_max_len is None || column@.sql_type == SqlType::Text),
        bound.wf() <==> bound.spec_bound() >= 1,
{
}

// ---- values against columns ----

/// A value that a column takes, and that is not `NULL`, has the type that
/// the column declares. There is no conversion from any type to another.
pub proof fn taken_value_has_the_declared_type(column: ColumnView, v: ValueView)
    requires
        schema::accepts(column, v),
    ensures
        v is Integer ==> column.sql_type == SqlType::Integer,
        v is Real ==> column.sql_type == SqlType::Real,
        v is Text ==> column.sql_type == SqlType::Text,
        v is Blob ==> column.sql_type == SqlType::Blob,
        v is Boolean ==> column.sql_type == SqlType::Boolean,
        v is Datetime ==> column.sql_type == SqlType::Datetime,
{
}

/// A value of the declared type that is no text is taken, whatever the
/// column says of `NULL` and of lengths.
pub proof fn value_of_the_declared_type_is_taken(column: ColumnView, v: ValueView)
    requires
        match column.sql_type {
            SqlType::Integer => v is Integer,
            SqlType::Real => v is Real,
            SqlType::Blob => v is Blob,
            SqlType::Boolean => v is Boolean,
            SqlType::Datetime => v is Datetime,
            SqlType::Text => false,
        },
    ensures
        schema::accepts(column, v),
{
}

/// A `TEXT` column takes a text unless it has a bound and the text has more
/// characters than that.
pub proof fn text_is_taken_up_to_the_bound(column: ColumnView, chars: Seq<char>)
    requires
        column.sql_type == SqlType::Text,
    ensures
        column.text_max_len is None ==> schema::accepts(column, ValueView::Text(chars)),
        column.text_max_len matches Some(n) ==> (schema::accepts(column, ValueView::Text(chars))
            <==> chars.len() <= n.spec_bound()),
{
}

/// A column takes `NULL` if and only if it is declared nullable, whatever
/// its type.
pub proof fn null_is_taken_where_it_is_declared(column: ColumnView)
    ensures
        schema::accepts(column, ValueView::Null) <==> column.nullability == Nullability::Nullable,
{
}

/// Two columns that differ in their names only take the same values.
pub proof fn name_does_not_decide(a: ColumnView, b: ColumnView, v: ValueView)
    requires
        a.sql_type == b.sql_type,
        a.nullability == b.nullability,
        a.text_max_len == b.text_max_len,
    ensures
        schema::accepts(a, v) == schema::accepts(b, v),
{
}

/// A value is taken by columns of at most one type, unless it is `NULL`.
pub proof fn value_fits_columns_of_one_type(a: ColumnView, b: ColumnView, v: ValueView)
    requires
        !(v is Null),
        schema::accepts(a, v),
        schema::accepts(b, v),
    ensures
        a.sql_type == b.sql_type,
{
}

/// The error that refuses a value names the column and says what is wrong:
/// that `NULL` is not allowed, which type was declared and which was found,
/// or how long the text is and may be.
pub proof fn refusal_says_what_is_wrong(column: ColumnView, v: ValueView, e: LexisError)
    requires
        !schema::accepts(column, v),
        schema::rejects(column, v, e),
    ensures
        v is Null ==> (e matches LexisError::NullNotAllowed { column: c } && c@ == column.name),
        e is NullNotAllowed ==> v is Null && column.nullability == Nullability::NotNull,
        e matches LexisError::TypeMismatch { column: c, expected, actual } ==> {
            &&& c@ == column.name
            &&& expected == column.sql_type
            &&& expected != actual
            &&& !(v is Null)
            &&& v is Integer <==> actual == SqlType::Integer
            &&& v is Real <==> actual == SqlType::Real
            &&& v is Text <==> actual == SqlType::Text
            &&& v is Blob <==> actual == SqlType::Blob
            &&& v is Boolean <==> actual == SqlType::Boolean
            &&& v is Datetime <==> actual == SqlType::Datetime
        },
        e matches LexisError::TextTooLong { column: c, max_len, actual_len } ==> {
            &&& c@ == column.name
            &&& column.sql_type == SqlType::Text
            &&& v is Text && v->Text_0.len() == actual_len
            &&& column.text_max_len matches Some(n) && n.spec_bound() == max_len
            &&& max_len < actual_len
        },
        e is NullNotAllowed || e is TypeMismatch || e is TextTooLong,
{
}

// ---- tables ----

/// Columns with pairwise different names are no duplicates of one another.
pub proof fn different_names_are_distinct(columns: Seq<ColumnView>)
    requires
        forall|i: int, j: int|
            0 <= i < columns.len() && 0 <= j < columns.len() && i != j ==> (
            #[trigger] columns[i]).name != (#[trigger] columns[j]).name,
    ensures
        schema::distinct(columns),
        forall|i: int| 0 <= i < columns.len() ==> !#[trigger] schema::repeats(columns, i),
{
}

/// Columns that are distinct have pairwise different names.
pub proof fn distinct_columns_have_different_names(columns: Seq<ColumnView>, i: int, j: int)
    requires
        schema::distinct(columns),
        0 <= i < columns.len(),
        0 <= j < columns.len(),
        i != j,
    ensures
        columns[i].name != columns[j].name,
{
    if i < j {
        assert(columns[i].name != columns[j].name);
    } else {
        assert(columns[j].name != columns[i].name);
    }
}

/// A column that repeats another shares its name with one before it.
pub proof fn repeated_column_shares_a_name(columns: Seq<ColumnView>, i: int)
    requires
        0 <= i < columns.len(),
    ensures
        schema::repeats(columns, i) <==> exists|j: int|
            0 <= j < columns.len() && j < i && (#[trigger] columns[j]).name == columns[i].name,
{
}

// ---- values ----

/// What a value is, variant by variant, and the type that it has.
pub proof fn values_are_what_they_hold(
    n: i64,
    double: RealValue,
    text: String,
    blob: Vec<u8>,
    truth: bool,
    time: DateTimeValue,
)
    ensures
        Value::Null@ == ValueView::Null && value::type_of(Value::Null@) is None,
        Value::Integer(n)@ == ValueView::Integer(n),
        value::type_of(Value::Integer(n)@) == Some(SqlType::Integer),
        Value::Real(double)@ == ValueView::Real(double.spec_bits()),
        value::type_of(Value::Real(double)@) == Some(SqlType::Real),
        Value::Text(text)@ == ValueView::Text(text@),
        value::type_of(Value::Text(text)@) == Some(SqlType::Text),
        Value::Blob(blob)@ == ValueView::Blob(blob@),
        value::type_of(Value::Blob(blob)@) == Some(SqlType::Blob),
        Value::Boolean(truth)@ == ValueView::Boolean(truth),
        value::type_of(Value::Boolean(truth)@) == Some(SqlType::Boolean),
        Value::Datetime(time)@ == ValueView::Datetime(time.spec_nanos()),
        value::type_of(Value::Datetime(time)@) == Some(SqlType::Datetime),
{
}

/// A plain value becomes the value of the one type that it stands for.
pub proof fn plain_values_become_values(
    n: i64,
    truth: bool,
    text: String,
    blob: Vec<u8>,
    time: DateTimeValue,
)
    ensures
        <Value as vstd::std_specs::convert::FromSpec<i64>>::from_spec(n)@ == ValueView::Integer(n),
        <Value as vstd::std_specs::convert::FromSpec<bool>>::from_spec(truth)@
            == ValueView::Boolean(truth),
        <Value as vstd::std_specs::convert::FromSpec<String>>::from_spec(text)@
            == ValueView::Text(text@),
        <Value as vstd::std_specs::convert::FromSpec<Vec<u8>>>::from_spec(blob)@
            == ValueView::Blob(blob@),
        <Value as vstd::std_specs::convert::FromSpec<DateTimeValue>>::from_spec(time)@
            == ValueView::Datetime(time.spec_nanos()),
        <Value as vstd::std_specs::convert::FromSpec<i64>>::obeys_from_spec(),
        <Value as vstd::std_specs::convert::FromSpec<bool>>::obeys_from_spec(),
        <Value as vstd::std_specs::convert::FromSpec<String>>::obeys_from_spec(),
        <Value as vstd::std_specs::convert::FromSpec<Vec<u8>>>::obeys_from_spec(),
        <Value as vstd::std_specs::convert::FromSpec<DateTimeValue>>::obeys_from_spec(),
{
}

/// The bits are those of a NaN if and only if all bits of the exponent are
/// set and some bit of the fraction is.
pub proof fn nan_is_a_full_exponent_with_a_fraction(bits: u64)
    ensures
        value::is_nan_bits(bits) <==> bits & 0x7FF0_0000_0000_0000 == 0x7FF0_0000_0000_0000 && bits
            & 0x000F_FFFF_FFFF_FFFF != 0,
{
    assert(bits % 0x8000_0000_0000_0000 > 0x7FF0_0000_0000_0000 <==> bits & 0x7FF0_0000_0000_0000
        == 0x7FF0_0000_0000_0000 && bits & 0x000F_FFFF_FFFF_FFFF != 0) by (bit_vector);
}

/// Two doubles are equal if their bits are, or if neither has a bit set but
/// the sign.
pub proof fn reals_are_equal_as_doubles(a: RealValue, b: RealValue)
    ensures
        vstd::std_specs::cmp::PartialEqSpec::eq_spec(&a, &b) <==> a.spec_bits() == b.spec_bits()
            || a.spec_bits() & 0x7FFF_FFFF_FFFF_FFFF == 0 && b.spec_bits() & 0x7FFF_FFFF_FFFF_FFFF
            == 0,
{
    let x = a.spec_bits();
    let y = b.spec_bits();
    assert(x % 0x8000_0000_0000_0000 == 0 <==> x & 0x7FFF_FFFF_FFFF_FFFF == 0) by (bit_vector);
    assert(y % 0x8000_0000_0000_0000 == 0 <==> y & 0x7FFF_FFFF_FFFF_FFFF == 0) by (bit_vector);
}

/// The number that decimal digits stand for.
pub open spec fn number_of(digits: Seq<char>) -> int
    decreases digits.len(),
{
    if digits.len() == 0 {
        0
    } else {
        10 * number_of(digits.drop_last()) + (digits.last() as int - '0' as int)
    }
}

/// A number in decimal digits stands for that number, has no other
/// characters than digits, and no zero before other digits.
pub proof fn decimal_stands_for_its_number(n: nat)
    ensures
        number_of(value::decimal(n)) == n,
        value::decimal(n).len() > 0,
        forall|i: int|
            0 <= i < value::decimal(n).len() ==> '0' <= #[trigger] value::decimal(n)[i] <= '9',
        value::decimal(n).len() > 1 ==> value::decimal(n)[0] != '0',
    decreases n,
{
    let digits = value::decimal(n);
    if n < 10 {
        assert(digits.drop_last() =~= Seq::<char>::empty());
        assert(number_of(digits.drop_last()) == 0);
    } else {
        let first = value::decimal(n / 10);
        decimal_stands_for_its_number(n / 10);
        assert(digits.drop_last() =~= first);
        assert(digits.last() as int - '0' as int == n % 10);
        assert forall|i: int| 0 <= i < digits.len() implies '0' <= #[trigger] digits[i]
            <= '9' by {
            if i < first.len() {
                assert(digits[i] == first[i]);
            }
        }
        assert(digits[0] == first[0]);
        if first.len() == 1 {
            assert(first.drop_last() =~= Seq::<char>::empty());
            assert(number_of(first.drop_last()) == 0);
        }
    }
}

/// A time is shown as its offset: the digits of its distance from zero,
/// behind a minus sign if and only if it is negative.
pub proof fn datetime_is_shown_as_its_offset(n: i64)
    ensures
        n >= 0 ==> number_of(value::signed_decimal(n as int)) == n,
        n < 0 ==> value::signed_decimal(n as int)[0] == '-' && number_of(
            value::signed_decimal(n as int).drop_first(),
        ) == -n,
{
    if n < 0 {
        let shown = value::signed_decimal(n as int);
        decimal_stands_for_its_number((-(n as int)) as nat);
        assert(shown.drop_first() =~= value::decimal((-(n as int)) as nat));
    } else {
        decimal_stands_for_its_number(n as nat);
    }
}

// ---- expressions ----

/// Expressions that are the same have the same form, and the same operators,
/// types and leaves.
pub proof fn same_expressions_have_one_form(a: Expr, b: Expr)
    requires
        ast::same_expr(a, b),
    ensures
        a matches Expr::Literal(x) ==> (b matches Expr::Literal(y) && x@ == y@),
        a matches Expr::Column(x) ==> (b matches Expr::Column(y) && x@ == y@),
        a matches Expr::UnaryOp { op: f, operand: x } ==> (b matches Expr::UnaryOp {
            op: g,
            operand: y,
        } && f == g && ast::same_expr(*x, *y)),
        a matches Expr::BinaryOp { op: f, left: l, right: r } ==> (b matches Expr::BinaryOp {
            op: g,
            left: m,
            right: s,
        } && f == g && ast::same_expr(*l, *m) && ast::same_expr(*r, *s)),
        a matches Expr::Cast { operand: x, target: t } ==> (b matches Expr::Cast {
            operand: y,
            target: u,
        } && t == u && ast::same_expr(*x, *y)),
        a matches Expr::IsNull(x) ==> (b matches Expr::IsNull(y) && ast::same_expr(*x, *y)),
        a matches Expr::IsNotNull(x) ==> (b matches Expr::IsNotNull(y) && ast::same_expr(*x, *y)),
{
}

} // verus!
