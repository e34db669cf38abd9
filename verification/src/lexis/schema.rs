//! The schema vocabulary: columns and tables.

use vstd::prelude::*;
use vstd::string::StrSliceExecFns;

use crate::lexis::error::LexisError;
use crate::lexis::identifier::{ColumnName, TableName};
use crate::lexis::types::SqlType;
use crate::lexis::value;
use crate::lexis::value::{Value, ValueView};

verus! {

/// Whether a column accepts `NULL`. There is no default: every column says
/// which it is.
#[derive(Debug, Clone, Copy, PartialEq, Eq, Hash, Structural)]
#[non_exhaustive]
pub enum Nullability {
    /// The column accepts `NULL`.
    Nullable,
    /// The column rejects `NULL`.
    NotNull,
}

/// A length bound of a `TEXT` column, which is not zero.
#[derive(Debug, Clone, Copy, PartialEq, Eq, Hash)]
pub struct TextMaxLen {
    bound: u32,
}

impl TextMaxLen {
    /// The bound.
    pub closed spec fn spec_bound(self) -> u32 {
        self.bound
    }

    /// The bound is not zero.
    pub open spec fn wf(self) -> bool {
        self.spec_bound() > 0
    }

    /// The bound.
    #[must_use]
    pub fn get(self) -> (n: u32)
        ensures
            n == self.spec_bound(),
    {
        self.bound
    }
}

impl TryFrom<u32> for TextMaxLen {
    type Error = LexisError;

    /// Take the bound, unless it is zero.
    fn try_from(value: u32) -> (r: Result<Self, LexisError>)
        ensures
            match r {
                Ok(n) => value > 0 && n.spec_bound() == value && n.wf(),
                Err(e) => value == 0 && e == LexisError::TextMaxLenZero,
            },
    {
        if value == 0 {
            Err(LexisError::TextMaxLenZero)
        } else {
            Ok(TextMaxLen { bound: value })
        }
    }
}

impl vstd::std_specs::convert::TryFromSpecImpl<u32> for TextMaxLen {
    open spec fn obeys_try_from_spec() -> bool {
        true
    }

    closed spec fn try_from_spec(value: u32) -> Result<Self, LexisError> {
        if value == 0 {
            Err(LexisError::TextMaxLenZero)
        } else {
            Ok(TextMaxLen { bound: value })
        }
    }
}

/// What a column declares, as plain mathematical data.
pub struct ColumnView {
    /// The column's name.
    pub name: Seq<char>,
    /// The column's type.
    pub sql_type: SqlType,
    /// Whether the column accepts `NULL`.
    pub nullability: Nullability,
    /// The column's length bound.
    pub text_max_len: Option<TextMaxLen>,
}

/// What a column declares.
#[derive(Debug, PartialEq, Eq, Hash)]
pub struct ColumnDef {
    name: ColumnName,
    sql_type: SqlType,
    nullability: Nullability,
    text_max_len: Option<TextMaxLen>,
}

impl Clone for ColumnDef {
    fn clone(&self) -> (r: Self)
        ensures
            r@ == self@,
    {
        ColumnDef {
            name: self.name.clone(),
            sql_type: self.sql_type,
            nullability: self.nullability,
            text_max_len: self.text_max_len,
        }
    }
}

impl View for ColumnDef {
    type V = ColumnView;

    closed spec fn view(&self) -> ColumnView {
        ColumnView {
            name: self.name@,
            sql_type: self.sql_type,
            nullability: self.nullability,
            text_max_len: self.text_max_len,
        }
    }
}

/// A column with this declaration takes the value: `NULL` if it accepts
/// that, else a value of its type and, if that is a text, no longer than
/// its bound.
pub open spec fn accepts(column: ColumnView, v: ValueView) -> bool {
    match value::type_of(v) {
        None => column.nullability is Nullable,
        Some(t) => t == column.sql_type && within_bound(column, v),
    }
}

/// The value is no text that is longer than the column's bound.
pub open spec fn within_bound(column: ColumnView, v: ValueView) -> bool {
    v matches ValueView::Text(chars) ==> column.text_max_len matches Some(n) ==> chars.len()
        <= n.spec_bound()
}

/// `e` says why a column does not take a value.
pub open spec fn rejects(column: ColumnView, v: ValueView, e: LexisError) -> bool {
    match value::type_of(v) {
        None => e matches LexisError::NullNotAllowed { column: c } && c@ == column.name,
        Some(t) => if t != column.sql_type {
            e matches LexisError::TypeMismatch { column: c, expected, actual } && c@
                == column.name && expected == column.sql_type && actual == t
        } else {
            &&& e matches LexisError::TextTooLong { column: c, max_len, actual_len }
            &&& c@ == column.name
            &&& Some(max_len) == bound_of(column)
            &&& v matches ValueView::Text(chars)
            &&& actual_len == chars.len()
        },
    }
}

/// The column's length bound, as a number.
pub open spec fn bound_of(column: ColumnView) -> Option<u32> {
    match column.text_max_len {
        Some(n) => Some(n.spec_bound()),
        None => None,
    }
}

impl ColumnDef {
    /// Only a `TEXT` column has a length bound.
    pub open spec fn wf(self) -> bool {
        self@.text_max_len is Some ==> self@.sql_type is Text
    }

    /// Declare a column. Only a `TEXT` column can have a length bound.
    pub fn new(
        name: ColumnName,
        sql_type: SqlType,
        nullability: Nullability,
        text_max_len: Option<TextMaxLen>,
    ) -> (r: Result<Self, LexisError>)
        ensures
            match r {
                Ok(column) => {
                    &&& text_max_len is None || sql_type is Text
                    &&& column.wf()
                    &&& column@ == (ColumnView { name: name@, sql_type, nullability, text_max_len })
                },
                Err(e) => text_max_len is Some && !(sql_type is Text) && e == (
                LexisError::TextMaxLenOnNonText { sql_type }),
            },
    {
        if text_max_len.is_some() && sql_type != SqlType::Text {
            return Err(LexisError::TextMaxLenOnNonText { sql_type });
        }
        Ok(ColumnDef { name, sql_type, nullability, text_max_len })
    }

    /// The column's name.
    #[must_use]
    pub fn name(&self) -> (name: &ColumnName)
        ensures
            name@ == self@.name,
    {
        &self.name
    }

    /// The column's type.
    #[must_use]
    pub fn sql_type(&self) -> (t: SqlType)
        ensures
            t == self@.sql_type,
    {
        self.sql_type
    }

    /// Whether the column accepts `NULL`.
    #[must_use]
    pub fn nullability(&self) -> (n: Nullability)
        ensures
            n == self@.nullability,
    {
        self.nullability
    }

    /// The column's length bound, if it has one.
    #[must_use]
    pub fn text_max_len(&self) -> (n: Option<TextMaxLen>)
        ensures
            n == self@.text_max_len,
    {
        self.text_max_len
    }

    /// Check that the column takes the value. A text's length is counted in
    /// characters.
    pub fn check_value(&self, value: &Value) -> (r: Result<(), LexisError>)
        ensures
            match r {
                Ok(()) => accepts(self@, value@),
                Err(e) => !accepts(self@, value@) && rejects(self@, value@, e),
            },
            r is Ok && !(value@ is Null) ==> value::type_of(value@) == Some(self@.sql_type),
            !(value@ is Text) && value::type_of(value@) == Some(self@.sql_type) ==> r is Ok,
    {
        let actual = match value.sql_type() {
            Some(actual) => actual,
            None => {
                if self.nullability == Nullability::Nullable {
                    return Ok(());
                }
                return Err(LexisError::NullNotAllowed { column: self.name.to_string() });
            },
        };
        if actual != self.sql_type {
            return Err(
                LexisError::TypeMismatch {
                    column: self.name.to_string(),
                    expected: self.sql_type,
                    actual,
                },
            );
        }
        if let Value::Text(text) = value {
            if let Some(max_len) = self.text_max_len {
                let len: usize = text.as_str().unicode_len();
                if len as u128 > max_len.get() as u128 {
                    return Err(
                        LexisError::TextTooLong {
                            column: self.name.to_string(),
                            max_len: max_len.get(),
                            actual_len: len,
                        },
                    );
                }
            }
        }
        Ok(())
    }
}

/// What some columns declare.
pub open spec fn column_views(columns: Seq<ColumnDef>) -> Seq<ColumnView> {
    Seq::new(columns.len(), |i: int| columns[i]@)
}

/// Column `i` has the name of an earlier one.
pub open spec fn repeats(columns: Seq<ColumnView>, i: int) -> bool {
    exists|j: int| 0 <= j < i && (#[trigger] columns[j]).name == columns[i].name
}

/// No two columns share a name.
pub open spec fn distinct(columns: Seq<ColumnView>) -> bool {
    forall|i: int, j: int|
        0 <= j < i < columns.len() ==> (#[trigger] columns[j]).name != (
        #[trigger] columns[i]).name
}

/// A table's name and its columns, in the order in which they were declared.
#[derive(Debug, PartialEq, Eq, Hash)]
pub struct TableDef {
    name: TableName,
    columns: Vec<ColumnDef>,
}

impl Clone for TableDef {
    fn clone(&self) -> (r: Self)
        ensures
            r.spec_name() == self.spec_name(),
            r.spec_columns() == self.spec_columns(),
    {
        let columns: Vec<ColumnDef> = self.columns.clone();
        assert(column_views(columns@) =~= column_views(self.columns@));
        TableDef { name: self.name.clone(), columns }
    }
}

impl TableDef {
    /// The table's name.
    pub closed spec fn spec_name(self) -> Seq<char> {
        self.name@
    }

    /// The table's columns.
    pub closed spec fn spec_columns(self) -> Seq<ColumnView> {
        column_views(self.columns@)
    }

    /// The table has columns, and no two of them share a name.
    pub open spec fn wf(self) -> bool {
        &&& self.spec_columns().len() > 0
        &&& distinct(self.spec_columns())
    }

    /// Declare a table. It has at least one column, and no two columns share
    /// a name.
    pub fn new(name: TableName, columns: Vec<ColumnDef>) -> (r: Result<Self, LexisError>)
        ensures
            match r {
                Ok(table) => {
                    &&& columns@.len() > 0
                    &&& distinct(column_views(columns@))
                    &&& table.wf()
                    &&& table.spec_name() == name@
                    &&& table.spec_columns() == column_views(columns@)
                },
                Err(LexisError::EmptyColumnList { table }) => columns@.len() == 0 && table@
                    == name@,
                Err(LexisError::DuplicateColumn { table, column }) => {
                    &&& table@ == name@
                    &&& exists|i: int|
                        {
                            &&& 0 <= i < columns@.len()
                            &&& #[trigger] repeats(column_views(columns@), i)
                            &&& column@ == column_views(columns@)[i].name
                            &&& distinct(column_views(columns@).subrange(0, i))
                        }
                },
                Err(_) => false,
            },
            columns@.len() > 0 && (forall|i: int, j: int|
                0 <= j < i < columns@.len() ==> (#[trigger] columns@[j])@.name != (
                #[trigger] columns@[i])@.name) ==> r is Ok,
            r matches Err(LexisError::DuplicateColumn { column, .. }) ==> exists|i: int, j: int|
                {
                    &&& 0 <= j < i < columns@.len()
                    &&& (#[trigger] columns@[j])@.name == column@
                    &&& (#[trigger] columns@[i])@.name == column@
                },
    {
        if columns.len() == 0 {
            return Err(LexisError::EmptyColumnList { table: name.to_string() });
        }
        let ghost views = column_views(columns@);
        let mut i: usize = 0;
        while i < columns.len()
            invariant
                views == column_views(columns@),
                i <= columns@.len(),
                distinct(views.subrange(0, i as int)),
            decreases columns@.len() - i,
        {
            let wanted: String = columns[i].name.to_string();
            let mut j: usize = 0;
            while j < i
                invariant
                    views == column_views(columns@),
                    j <= i < columns@.len(),
                    wanted@ == views[i as int].name,
                    distinct(views.subrange(0, i as int)),
                    forall|k: int| 0 <= k < j ==> (#[trigger] views[k]).name != wanted@,
                decreases i - j,
            {
                let other: String = columns[j].name.to_string();
                if other == wanted {
                    assert(views[j as int].name == views[i as int].name);
                    assert(repeats(views, i as int));
                    assert(columns@[j as int]@.name == columns@[i as int]@.name);
                    return Err(
                        LexisError::DuplicateColumn { table: name.to_string(), column: wanted },
                    );
                }
                j = j + 1;
            }
            proof {
                let more = views.subrange(0, i + 1);
                assert forall|a: int, b: int| 0 <= b < a < more.len() implies (
                #[trigger] more[b]).name != (#[trigger] more[a]).name by {
                    if a < i {
                        assert(views.subrange(0, i as int)[a] == more[a]);
                        assert(views.subrange(0, i as int)[b] == more[b]);
                    } else {
                        assert(more[b] == views[b]);
                    }
                }
            }
            i = i + 1;
        }
        assert(views.subrange(0, i as int) =~= views);
        Ok(TableDef { name, columns })
    }

    /// The table's name.
    #[must_use]
    pub fn name(&self) -> (name: &TableName)
        ensures
            name@ == self.spec_name(),
    {
        &self.name
    }

    /// The table's columns, in the order in which they were declared.
    #[must_use]
    pub fn columns(&self) -> (columns: &[ColumnDef])
        ensures
            column_views(columns@) == self.spec_columns(),
    {
        self.columns.as_slice()
    }

    /// The first column with this name.
    #[must_use]
    pub fn column(&self, name: &str) -> (r: Option<&ColumnDef>)
        ensures
            match r {
                Some(column) => exists|i: int|
                    {
                        &&& 0 <= i < self.spec_columns().len()
                        &&& (#[trigger] self.spec_columns()[i]).name == name@
                        &&& column@ == self.spec_columns()[i]
                        &&& forall|j: int|
                            0 <= j < i ==> (#[trigger] self.spec_columns()[j]).name != name@
                    },
                None => forall|i: int|
                    0 <= i < self.spec_columns().len() ==> (
                    #[trigger] self.spec_columns()[i]).name != name@,
            },
    {
        let wanted: String = name.to_owned();
        let mut i: usize = 0;
        while i < self.columns.len()
            invariant
                wanted@ == name@,
                i <= self.columns@.len(),
                forall|j: int|
                    0 <= j < i ==> (#[trigger] self.spec_columns()[j]).name != name@,
            decreases self.columns@.len() - i,
        {
            let column = &self.columns[i];
            assert(self.spec_columns()[i as int] == column@);
            let other: String = column.name.to_string();
            if other == wanted {
                return Some(column);
            }
            i = i + 1;
        }
        None
    }
}

/// In a table, a column's name leads to that column and no other.
pub proof fn column_names_are_unique(table: TableDef, i: int, j: int)
    requires
        table.wf(),
        0 <= i < table.spec_columns().len(),
        0 <= j < table.spec_columns().len(),
        table.spec_columns()[i].name == table.spec_columns()[j].name,
    ensures
        i == j,
{
}

} // verus!
