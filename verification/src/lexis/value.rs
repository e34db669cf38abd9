//! Runtime values of the six-type system.

use vstd::prelude::*;
use vstd::string::StringExecFns;

use crate::lexis::error::LexisError;
use crate::lexis::types::SqlType;

verus! {

/// The double with these bits is NaN: its exponent is all ones and its
/// fraction is not zero.
pub open spec fn is_nan_bits(bits: u64) -> bool {
    bits % 0x8000_0000_0000_0000 > 0x7FF0_0000_0000_0000
}

/// The double with these bits is zero, of either sign.
pub open spec fn is_zero_bits(bits: u64) -> bool {
    bits % 0x8000_0000_0000_0000 == 0
}

/// A `REAL` value: the bits of an IEEE-754 double that is not NaN.
#[derive(Debug, Clone, Copy)]
pub struct RealValue {
    bits: u64,
}

impl RealValue {
    /// The bits of the double.
    pub closed spec fn spec_bits(self) -> u64 {
        self.bits
    }

    /// The double is not NaN.
    pub open spec fn wf(self) -> bool {
        !is_nan_bits(self.spec_bits())
    }

    /// The bits of the double.
    #[must_use]
    pub fn get(self) -> (bits: u64)
        ensures
            bits == self.spec_bits(),
    {
        self.bits
    }
}

impl TryFrom<u64> for RealValue {
    type Error = LexisError;

    /// Take the double with these bits, unless it is NaN.
    fn try_from(value: u64) -> (r: Result<Self, LexisError>)
        ensures
            match r {
                Ok(v) => !is_nan_bits(value) && v.spec_bits() == value && v.wf(),
                Err(e) => is_nan_bits(value) && e == (LexisError::NanReal { value }),
            },
    {
        if value % 0x8000_0000_0000_0000 > 0x7FF0_0000_0000_0000 {
            Err(LexisError::NanReal { value })
        } else {
            Ok(RealValue { bits: value })
        }
    }
}

impl vstd::std_specs::convert::TryFromSpecImpl<u64> for RealValue {
    open spec fn obeys_try_from_spec() -> bool {
        true
    }

    closed spec fn try_from_spec(value: u64) -> Result<Self, LexisError> {
        if is_nan_bits(value) {
            Err(LexisError::NanReal { value })
        } else {
            Ok(RealValue { bits: value })
        }
    }
}

impl PartialEq for RealValue {
    /// Equality of doubles: equal bits, or two zeros.
    fn eq(&self, other: &Self) -> (r: bool) {
        self.bits == other.bits || (self.bits % 0x8000_0000_0000_0000 == 0 && other.bits
            % 0x8000_0000_0000_0000 == 0)
    }
}

impl vstd::std_specs::cmp::PartialEqSpecImpl for RealValue {
    open spec fn obeys_eq_spec() -> bool {
        true
    }

    open spec fn eq_spec(&self, other: &Self) -> bool {
        self.spec_bits() == other.spec_bits() || (is_zero_bits(self.spec_bits()) && is_zero_bits(
            other.spec_bits(),
        ))
    }
}

/// A `DATETIME` value: nanoseconds since the UTC epoch.
#[derive(Debug, Clone, Copy, PartialEq, Eq, PartialOrd, Ord, Hash)]
pub struct DateTimeValue {
    nanos: i64,
}

impl DateTimeValue {
    /// The nanosecond offset.
    pub closed spec fn spec_nanos(self) -> i64 {
        self.nanos
    }

    /// The nanosecond offset.
    #[must_use]
    pub fn get(self) -> (nanos: i64)
        ensures
            nanos == self.spec_nanos(),
    {
        self.nanos
    }

    /// The nanosecond offset, as a decimal number.
    pub fn to_string(&self) -> (s: String)
        ensures
            s@ == signed_decimal(self.spec_nanos() as int),
    {
        let mut out = String::new();
        if self.nanos < 0 {
            proof {
                reveal_strlit("-");
            }
            out.append("-");
            push_decimal(&mut out, (-(self.nanos as i128)) as u64);
            assert(out@ =~= signed_decimal(self.nanos as int));
        } else {
            push_decimal(&mut out, self.nanos as u64);
            assert(out@ =~= signed_decimal(self.nanos as int));
        }
        out
    }
}

/// The decimal digit of a number below ten.
pub open spec fn digit(d: nat) -> char {
    (0x30 + d) as char
}

/// A number in decimal digits.
pub open spec fn decimal(n: nat) -> Seq<char>
    decreases n,
{
    if n < 10 {
        seq![digit(n)]
    } else {
        decimal(n / 10).push(digit(n % 10))
    }
}

/// A number in decimal digits, with a sign where it is negative.
pub open spec fn signed_decimal(n: int) -> Seq<char> {
    if n < 0 {
        seq!['-'] + decimal((-n) as nat)
    } else {
        decimal(n as nat)
    }
}

/// Append a number in decimal digits.
fn push_decimal(out: &mut String, n: u64)
    ensures
        final(out)@ == old(out)@ + decimal(n as nat),
    decreases n,
{
    if n >= 10 {
        push_decimal(out, n / 10);
    }
    proof {
        reveal_strlit("0");
        reveal_strlit("1");
        reveal_strlit("2");
        reveal_strlit("3");
        reveal_strlit("4");
        reveal_strlit("5");
        reveal_strlit("6");
        reveal_strlit("7");
        reveal_strlit("8");
        reveal_strlit("9");
    }
    let d: &str = match n % 10 {
        0 => "0",
        1 => "1",
        2 => "2",
        3 => "3",
        4 => "4",
        5 => "5",
        6 => "6",
        7 => "7",
        8 => "8",
        _ => "9",
    };
    assert(d@ =~= seq![digit((n % 10) as nat)]);
    out.append(d);
    assert(out@ =~= old(out)@ + decimal(n as nat));
}

impl From<i64> for DateTimeValue {
    fn from(value: i64) -> (r: Self)
        ensures
            r.spec_nanos() == value,
    {
        DateTimeValue { nanos: value }
    }
}

impl vstd::std_specs::convert::FromSpecImpl<i64> for DateTimeValue {
    open spec fn obeys_from_spec() -> bool {
        true
    }

    closed spec fn from_spec(value: i64) -> Self {
        DateTimeValue { nanos: value }
    }
}

impl From<DateTimeValue> for i64 {
    fn from(value: DateTimeValue) -> (r: i64)
        ensures
            r == value.spec_nanos(),
    {
        value.nanos
    }
}

impl vstd::std_specs::convert::FromSpecImpl<DateTimeValue> for i64 {
    open spec fn obeys_from_spec() -> bool {
        true
    }

    open spec fn from_spec(value: DateTimeValue) -> i64 {
        value.spec_nanos()
    }
}

/// What a value is, as plain mathematical data.
pub enum ValueView {
    /// `NULL`.
    Null,
    /// An integer.
    Integer(i64),
    /// The bits of a double.
    Real(u64),
    /// The characters of a text.
    Text(Seq<char>),
    /// The bytes of a blob.
    Blob(Seq<u8>),
    /// A truth value.
    Boolean(bool),
    /// A nanosecond offset.
    Datetime(i64),
}

/// A `REAL` is not NaN.
pub open spec fn value_view_wf(v: ValueView) -> bool {
    v matches ValueView::Real(bits) ==> !is_nan_bits(bits)
}

/// A runtime value of one of the six types, or `NULL`.
#[derive(Debug, PartialEq)]
#[non_exhaustive]
pub enum Value {
    /// SQL `NULL`. It has no type of its own.
    Null,
    /// `INTEGER`: 64-bit signed.
    Integer(i64),
    /// `REAL`: an IEEE-754 double that is not NaN.
    Real(RealValue),
    /// `TEXT`: UTF-8 string.
    Text(String),
    /// `BLOB`: opaque bytes.
    Blob(Vec<u8>),
    /// `BOOLEAN`: `true` or `false`.
    Boolean(bool),
    /// `DATETIME`: nanosecond UTC epoch.
    Datetime(DateTimeValue),
}

impl Clone for Value {
    fn clone(&self) -> (r: Self)
        ensures
            r@ == self@,
    {
        match self {
            Value::Null => Value::Null,
            Value::Integer(v) => Value::Integer(*v),
            Value::Real(v) => Value::Real(*v),
            Value::Text(v) => Value::Text(v.clone()),
            Value::Blob(v) => {
                let bytes: Vec<u8> = v.clone();
                assert(bytes@ =~= v@);
                Value::Blob(bytes)
            },
            Value::Boolean(v) => Value::Boolean(*v),
            Value::Datetime(v) => Value::Datetime(*v),
        }
    }
}

impl View for Value {
    type V = ValueView;

    open spec fn view(&self) -> ValueView {
        match self {
            Value::Null => ValueView::Null,
            Value::Integer(v) => ValueView::Integer(*v),
            Value::Real(v) => ValueView::Real(v.spec_bits()),
            Value::Text(s) => ValueView::Text(s@),
            Value::Blob(b) => ValueView::Blob(b@),
            Value::Boolean(v) => ValueView::Boolean(*v),
            Value::Datetime(v) => ValueView::Datetime(v.spec_nanos()),
        }
    }
}

/// The type that a value inhabits; `NULL` inhabits none.
pub open spec fn type_of(v: ValueView) -> Option<SqlType> {
    match v {
        ValueView::Null => None,
        ValueView::Integer(_) => Some(SqlType::Integer),
        ValueView::Real(_) => Some(SqlType::Real),
        ValueView::Text(_) => Some(SqlType::Text),
        ValueView::Blob(_) => Some(SqlType::Blob),
        ValueView::Boolean(_) => Some(SqlType::Boolean),
        ValueView::Datetime(_) => Some(SqlType::Datetime),
    }
}

impl Value {
    /// A `REAL` is not NaN.
    pub open spec fn wf(self) -> bool {
        value_view_wf(self@)
    }

    /// The type that this value inhabits, or `None` for `NULL`.
    #[must_use]
    pub fn sql_type(&self) -> (r: Option<SqlType>)
        ensures
            r == type_of(self@),
    {
        match self {
            Value::Null => None,
            Value::Integer(_) => Some(SqlType::Integer),
            Value::Real(_) => Some(SqlType::Real),
            Value::Text(_) => Some(SqlType::Text),
            Value::Blob(_) => Some(SqlType::Blob),
            Value::Boolean(_) => Some(SqlType::Boolean),
            Value::Datetime(_) => Some(SqlType::Datetime),
        }
    }

    /// Whether this value is `NULL`.
    #[must_use]
    pub fn is_null(&self) -> (r: bool)
        ensures
            r == (self@ is Null),
    {
        match self {
            Value::Null => true,
            _ => false,
        }
    }
}

impl TryFrom<u64> for Value {
    type Error = LexisError;

    /// A `REAL` from the bits of a double, unless it is NaN.
    fn try_from(value: u64) -> (r: Result<Self, LexisError>)
        ensures
            match r {
                Ok(v) => !is_nan_bits(value) && v@ == ValueView::Real(value) && v.wf(),
                Err(e) => is_nan_bits(value) && e == (LexisError::NanReal { value }),
            },
    {
        match RealValue::try_from(value) {
            Ok(v) => Ok(Value::Real(v)),
            Err(e) => Err(e),
        }
    }
}

impl vstd::std_specs::convert::TryFromSpecImpl<u64> for Value {
    open spec fn obeys_try_from_spec() -> bool {
        true
    }

    closed spec fn try_from_spec(value: u64) -> Result<Self, LexisError> {
        if is_nan_bits(value) {
            Err(LexisError::NanReal { value })
        } else {
            Ok(Value::Real(RealValue { bits: value }))
        }
    }
}

impl From<i64> for Value {
    fn from(value: i64) -> Self {
        Value::Integer(value)
    }
}

impl vstd::std_specs::convert::FromSpecImpl<i64> for Value {
    open spec fn obeys_from_spec() -> bool {
        true
    }

    open spec fn from_spec(value: i64) -> Self {
        Value::Integer(value)
    }
}

impl From<bool> for Value {
    fn from(value: bool) -> Self {
        Value::Boolean(value)
    }
}

impl vstd::std_specs::convert::FromSpecImpl<bool> for Value {
    open spec fn obeys_from_spec() -> bool {
        true
    }

    open spec fn from_spec(value: bool) -> Self {
        Value::Boolean(value)
    }
}

impl From<String> for Value {
    fn from(value: String) -> Self {
        Value::Text(value)
    }
}

impl vstd::std_specs::convert::FromSpecImpl<String> for Value {
    open spec fn obeys_from_spec() -> bool {
        true
    }

    open spec fn from_spec(value: String) -> Self {
        Value::Text(value)
    }
}

impl From<Vec<u8>> for Value {
    fn from(value: Vec<u8>) -> Self {
        Value::Blob(value)
    }
}

impl vstd::std_specs::convert::FromSpecImpl<Vec<u8>> for Value {
    open spec fn obeys_from_spec() -> bool {
        true
    }

    open spec fn from_spec(value: Vec<u8>) -> Self {
        Value::Blob(value)
    }
}

impl From<DateTimeValue> for Value {
    fn from(value: DateTimeValue) -> Self {
        Value::Datetime(value)
    }
}

impl vstd::std_specs::convert::FromSpecImpl<DateTimeValue> for Value {
    open spec fn obeys_from_spec() -> bool {
        true
    }

    open spec fn from_spec(value: DateTimeValue) -> Self {
        Value::Datetime(value)
    }
}

/// A `DATETIME` made from an offset gives that offset back.
pub proof fn datetime_round_trips(nanos: i64)
    ensures
        <i64 as vstd::std_specs::convert::FromSpec<DateTimeValue>>::from_spec(
            <DateTimeValue as vstd::std_specs::convert::FromSpec<i64>>::from_spec(nanos),
        ) == nanos,
{
}

} // verus!
