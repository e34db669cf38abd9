//! Row encoding: a row's values as a tagged byte string.
//!
//! A row is its column count (four bytes), then its values in order. A
//! value is a type tag (one byte), then its payload: fixed-width for
//! numbers, truth values and times, length-prefixed for text and blobs.

use vstd::prelude::*;
use vstd::utf8;

use crate::codec;
use crate::codec::{
    i64_to_bytes, read_i64, read_u32, read_u64, read_u8, read_vec, u32_to_bytes, u64_to_bytes,
};
use crate::error::{FatalError, PermanentError, PinaxError};
use crate::lexis::value;
use crate::lexis::value::{DateTimeValue, RealValue, Value, ValueView};

verus! {

/// Type tag of `NULL`.
pub const TAG_NULL: u8 = 0;

/// Type tag of an `INTEGER`.
pub const TAG_INTEGER: u8 = 1;

/// Type tag of a `REAL`.
pub const TAG_REAL: u8 = 2;

/// Type tag of a `TEXT`.
pub const TAG_TEXT: u8 = 3;

/// Type tag of a `BLOB`.
pub const TAG_BLOB: u8 = 4;

/// Type tag of a `BOOLEAN`.
pub const TAG_BOOLEAN: u8 = 5;

/// Type tag of a `DATETIME`.
pub const TAG_DATETIME: u8 = 6;

// ---- what an encoded row is ----

/// `bytes` behind its length.
pub open spec fn prefixed(bytes: Seq<u8>) -> Seq<u8> {
    codec::u32_bytes(bytes.len() as u32) + bytes
}

/// The encoding of one value.
pub open spec fn value_bytes(v: ValueView) -> Seq<u8> {
    match v {
        ValueView::Null => seq![TAG_NULL],
        ValueView::Integer(n) => seq![TAG_INTEGER] + codec::i64_bytes(n),
        ValueView::Real(bits) => seq![TAG_REAL] + codec::u64_bytes(bits),
        ValueView::Text(s) => seq![TAG_TEXT] + prefixed(utf8::encode_utf8(s)),
        ValueView::Blob(b) => seq![TAG_BLOB] + prefixed(b),
        ValueView::Boolean(t) => seq![
            TAG_BOOLEAN,
            if t {
                1u8
            } else {
                0u8
            },
        ],
        ValueView::Datetime(n) => seq![TAG_DATETIME] + codec::i64_bytes(n),
    }
}

/// The encodings of some values, one after the other.
pub open spec fn values_bytes(vs: Seq<ValueView>) -> Seq<u8>
    decreases vs.len(),
{
    if vs.len() == 0 {
        Seq::empty()
    } else {
        value_bytes(vs[0]) + values_bytes(vs.drop_first())
    }
}

/// The encoding of a row.
pub open spec fn row_bytes(vs: Seq<ValueView>) -> Seq<u8> {
    codec::u32_bytes(vs.len() as u32) + values_bytes(vs)
}

/// The length prefix that a value's encoding needs, or 0 for a value
/// without one.
pub open spec fn prefix_of(v: ValueView) -> nat {
    match v {
        ValueView::Text(s) => utf8::encode_utf8(s).len(),
        ValueView::Blob(b) => b.len(),
        _ => 0,
    }
}

/// The first length of a row that does not fit 32 bits: its column count,
/// or the length of a text or blob.
pub open spec fn oversize(vs: Seq<ValueView>) -> Option<nat> {
    if vs.len() > u32::MAX {
        Some(vs.len())
    } else {
        oversize_value(vs)
    }
}

/// The first length of a text or blob that does not fit 32 bits.
pub open spec fn oversize_value(vs: Seq<ValueView>) -> Option<nat>
    decreases vs.len(),
{
    if vs.len() == 0 {
        None
    } else {
        match oversize_value(vs.drop_last()) {
            Some(n) => Some(n),
            None => if prefix_of(vs.last()) > u32::MAX {
                Some(prefix_of(vs.last()))
            } else {
                None
            },
        }
    }
}

/// Every length of the row fits 32 bits, and no `REAL` is NaN.
pub open spec fn encodable(vs: Seq<ValueView>) -> bool {
    &&& oversize(vs) is None
    &&& forall|i: int| 0 <= i < vs.len() ==> value::value_view_wf(#[trigger] vs[i])
}

// ---- what bytes decode to ----

/// Why bytes are not an encoded row.
pub enum Fault {
    /// They end too early.
    Short,
    /// A type tag is not known.
    BadTag,
    /// A `REAL` is NaN.
    Nan,
    /// A `TEXT` is not UTF-8.
    BadUtf8,
}

/// The length-prefixed bytes at `at`, and where they end.
pub open spec fn parse_prefixed(b: Seq<u8>, at: int) -> Result<(Seq<u8>, int), Fault> {
    if at + 4 > b.len() {
        Err(Fault::Short)
    } else {
        let end = at + 4 + codec::be_u32(b, at);
        if end > b.len() {
            Err(Fault::Short)
        } else {
            Ok((b.subrange(at + 4, end), end))
        }
    }
}

/// The value encoded at `at`, and where its encoding ends.
pub open spec fn parse_value(b: Seq<u8>, at: int) -> Result<(ValueView, int), Fault> {
    if at >= b.len() {
        Err(Fault::Short)
    } else {
        let tag = b[at];
        if tag == TAG_NULL {
            Ok((ValueView::Null, at + 1))
        } else if tag == TAG_INTEGER || tag == TAG_DATETIME || tag == TAG_REAL {
            if at + 9 > b.len() {
                Err(Fault::Short)
            } else if tag == TAG_INTEGER {
                Ok((ValueView::Integer(codec::be_i64(b, at + 1)), at + 9))
            } else if tag == TAG_DATETIME {
                Ok((ValueView::Datetime(codec::be_i64(b, at + 1)), at + 9))
            } else if value::is_nan_bits(codec::be_u64(b, at + 1)) {
                Err(Fault::Nan)
            } else {
                Ok((ValueView::Real(codec::be_u64(b, at + 1)), at + 9))
            }
        } else if tag == TAG_TEXT || tag == TAG_BLOB {
            match parse_prefixed(b, at + 1) {
                Err(f) => Err(f),
                Ok((bytes, end)) => if tag == TAG_BLOB {
                    Ok((ValueView::Blob(bytes), end))
                } else if utf8::valid_utf8(bytes) {
                    Ok((ValueView::Text(utf8::decode_utf8(bytes)), end))
                } else {
                    Err(Fault::BadUtf8)
                },
            }
        } else if tag == TAG_BOOLEAN {
            if at + 2 > b.len() {
                Err(Fault::Short)
            } else {
                Ok((ValueView::Boolean(b[at + 1] != 0), at + 2))
            }
        } else {
            Err(Fault::BadTag)
        }
    }
}

/// The `count` values encoded one after the other from `at` on.
pub open spec fn parse_values(b: Seq<u8>, at: int, count: nat) -> Result<Seq<ValueView>, Fault>
    decreases count,
{
    if count == 0 {
        Ok(Seq::empty())
    } else {
        match parse_value(b, at) {
            Err(f) => Err(f),
            Ok((v, end)) => match parse_values(b, end, (count - 1) as nat) {
                Err(f) => Err(f),
                Ok(vs) => Ok(seq![v] + vs),
            },
        }
    }
}

/// The row that `b` encodes.
pub open spec fn parse_row(b: Seq<u8>) -> Result<Seq<ValueView>, Fault> {
    if b.len() < 4 {
        Err(Fault::Short)
    } else {
        parse_values(b, 4, codec::be_u32(b, 0) as nat)
    }
}

/// `e` reports this fault.
pub open spec fn reports(e: PinaxError, f: Fault) -> bool {
    match f {
        Fault::Short => e matches PinaxError::Fatal {
            source: FatalError::InvalidRowEncoding { reason },
        } && reason@ == "row payload ended too early"@,
        Fault::BadTag => e matches PinaxError::Fatal {
            source: FatalError::InvalidRowEncoding { reason },
        } && reason@ == "unrecognized value type tag"@,
        Fault::Nan => e matches PinaxError::Fatal {
            source: FatalError::InvalidRowEncoding { reason },
        } && reason@ == "REAL payload decoded to NaN"@,
        Fault::BadUtf8 => e matches PinaxError::Fatal {
            source: FatalError::InvalidRowEncoding { reason },
        } && reason@ == "TEXT payload was not valid UTF-8"@,
    }
}

// ---- laws ----

/// Encoding one more value appends its encoding.
pub proof fn values_bytes_push(vs: Seq<ValueView>, v: ValueView)
    ensures
        values_bytes(vs.push(v)) == values_bytes(vs) + value_bytes(v),
    decreases vs.len(),
{
    let all = vs.push(v);
    if vs.len() == 0 {
        assert(all.drop_first() =~= Seq::<ValueView>::empty());
        assert(values_bytes(all.drop_first()) =~= Seq::<u8>::empty());
        assert(values_bytes(all) =~= values_bytes(vs) + value_bytes(v));
    } else {
        assert(all.drop_first() =~= vs.drop_first().push(v));
        values_bytes_push(vs.drop_first(), v);
        assert(values_bytes(all) =~= values_bytes(vs) + value_bytes(v));
    }
}

/// A value is decoded from the bytes that encode it.
pub proof fn value_round_trip(b: Seq<u8>, at: int, v: ValueView)
    requires
        0 <= at,
        at + value_bytes(v).len() <= b.len(),
        b.subrange(at, at + value_bytes(v).len()) == value_bytes(v),
        prefix_of(v) <= u32::MAX,
        value::value_view_wf(v),
    ensures
        parse_value(b, at) == Ok::<_, Fault>((v, at + value_bytes(v).len())),
{
    let e = value_bytes(v);
    let w = b.subrange(at, at + e.len());
    assert(w[0] == b[at]);
    match v {
        ValueView::Null => {},
        ValueView::Integer(n) => {
            assert(b.subrange(at + 1, at + 9) =~= w.subrange(1, 9));
            assert(e.subrange(1, 9) =~= codec::i64_bytes(n));
            codec::i64_round_trip(b, at + 1, n);
        },
        ValueView::Datetime(n) => {
            assert(b.subrange(at + 1, at + 9) =~= w.subrange(1, 9));
            assert(e.subrange(1, 9) =~= codec::i64_bytes(n));
            codec::i64_round_trip(b, at + 1, n);
        },
        ValueView::Real(bits) => {
            assert(b.subrange(at + 1, at + 9) =~= w.subrange(1, 9));
            assert(e.subrange(1, 9) =~= codec::u64_bytes(bits));
            codec::u64_round_trip(b, at + 1, bits);
        },
        ValueView::Text(s) => {
            assert(e.subrange(1, e.len() as int) =~= prefixed(utf8::encode_utf8(s)));
            prefixed_round_trip(b, at, e, utf8::encode_utf8(s));
            utf8::encode_utf8_valid_utf8(s);
            utf8::encode_utf8_decode_utf8(s);
        },
        ValueView::Blob(bytes) => {
            assert(e.subrange(1, e.len() as int) =~= prefixed(bytes));
            prefixed_round_trip(b, at, e, bytes);
        },
        ValueView::Boolean(_) => {
            assert(w[1] == b[at + 1]);
        },
    }
}

/// Decoding a value where its encoding begins gives the value back, whatever
/// stands before and behind it, and stops where the encoding ends.
pub proof fn encoded_value_decodes(head: Seq<u8>, v: ValueView, tail: Seq<u8>)
    requires
        prefix_of(v) <= u32::MAX,
        value::value_view_wf(v),
    ensures
        parse_value(head + value_bytes(v) + tail, head.len() as int) == Ok::<_, Fault>(
            (v, (head.len() + value_bytes(v).len()) as int),
        ),
{
    let b = head + value_bytes(v) + tail;
    let at = head.len() as int;
    assert(b.subrange(at, at + value_bytes(v).len()) =~= value_bytes(v));
    value_round_trip(b, at, v);
}

/// Length-prefixed bytes are read back from behind a tag.
proof fn prefixed_round_trip(b: Seq<u8>, at: int, e: Seq<u8>, bytes: Seq<u8>)
    requires
        0 <= at,
        at + e.len() <= b.len(),
        b.subrange(at, at + e.len()) == e,
        e.len() == 5 + bytes.len(),
        e.subrange(1, e.len() as int) == prefixed(bytes),
        bytes.len() <= u32::MAX,
    ensures
        parse_prefixed(b, at + 1) == Ok::<_, Fault>((bytes, at + e.len())),
{
    let w = b.subrange(at, at + e.len());
    let p = prefixed(bytes);
    let n = bytes.len() as u32;
    assert(b.subrange(at + 1, at + 5) =~= w.subrange(1, e.len() as int).subrange(0, 4));
    assert(p.subrange(0, 4) =~= codec::u32_bytes(n));
    codec::u32_round_trip(b, at + 1, n);
    assert(b.subrange(at + 5, at + 5 + bytes.len()) =~= w.subrange(1, e.len() as int).subrange(
        4,
        p.len() as int,
    ));
    assert(p.subrange(4, p.len() as int) =~= bytes);
}

/// No length among the values exceeds 32 bits.
proof fn prefixes_fit(vs: Seq<ValueView>)
    requires
        oversize_value(vs) is None,
    ensures
        forall|i: int| 0 <= i < vs.len() ==> prefix_of(#[trigger] vs[i]) <= u32::MAX,
    decreases vs.len(),
{
    if vs.len() > 0 {
        prefixes_fit(vs.drop_last());
        assert forall|i: int| 0 <= i < vs.len() implies prefix_of(#[trigger] vs[i])
            <= u32::MAX by {
            if i < vs.len() - 1 {
                assert(vs.drop_last()[i] == vs[i]);
            }
        }
    }
}

proof fn values_round_trip(b: Seq<u8>, at: int, vs: Seq<ValueView>)
    requires
        0 <= at,
        at + values_bytes(vs).len() <= b.len(),
        b.subrange(at, at + values_bytes(vs).len()) == values_bytes(vs),
        forall|i: int|
            0 <= i < vs.len() ==> prefix_of(#[trigger] vs[i]) <= u32::MAX && value::value_view_wf(
                vs[i],
            ),
    ensures
        parse_values(b, at, vs.len()) == Ok::<_, Fault>(vs),
    decreases vs.len(),
{
    if vs.len() == 0 {
        assert(vs =~= Seq::empty());
    } else {
        let first = value_bytes(vs[0]);
        let rest = vs.drop_first();
        let all = values_bytes(vs);
        assert(b.subrange(at, at + first.len()) =~= first) by {
            assert forall|k: int| 0 <= k < first.len() implies b[at + k] == first[k] by {
                assert(b.subrange(at, at + all.len())[k] == all[k]);
            }
        }
        value_round_trip(b, at, vs[0]);
        let end = at + first.len();
        assert(b.subrange(end, end + values_bytes(rest).len()) =~= values_bytes(rest)) by {
            assert forall|k: int| 0 <= k < values_bytes(rest).len() implies b[end + k]
                == values_bytes(rest)[k] by {
                assert(b.subrange(at, at + all.len())[first.len() + k] == all[first.len() + k]);
            }
        }
        assert forall|i: int| 0 <= i < rest.len() implies prefix_of(#[trigger] rest[i]) <= u32::MAX
            && value::value_view_wf(rest[i]) by {
            assert(rest[i] == vs[i + 1]);
        }
        values_round_trip(b, end, rest);
        assert(seq![vs[0]] + rest =~= vs);
    }
}

/// Decoding an encoded row gives the row back.
pub proof fn row_round_trip(vs: Seq<ValueView>)
    requires
        encodable(vs),
    ensures
        parse_row(row_bytes(vs)) == Ok::<_, Fault>(vs),
{
    let b = row_bytes(vs);
    assert(b.subrange(0, 4) =~= codec::u32_bytes(vs.len() as u32));
    codec::u32_round_trip(b, 0, vs.len() as u32);
    assert(b.subrange(4, 4 + values_bytes(vs).len() as int) =~= values_bytes(vs));
    prefixes_fit(vs);
    values_round_trip(b, 4, vs);
}

// ---- rows ----

/// A row: a sequence of values.
#[derive(Debug, PartialEq)]
pub struct Row {
    values: Vec<Value>,
}

impl Clone for Row {
    fn clone(&self) -> (r: Self)
        ensures
            r@ == self@,
    {
        let values: Vec<Value> = self.values.clone();
        assert(views(values@) =~= views(self.values@));
        Row { values }
    }
}

impl View for Row {
    type V = Seq<ValueView>;

    closed spec fn view(&self) -> Seq<ValueView> {
        views(self.values@)
    }
}

/// What some values are, as plain mathematical data.
pub open spec fn views(values: Seq<Value>) -> Seq<ValueView> {
    Seq::new(values.len(), |i: int| values[i]@)
}

/// The error that rejects a length.
pub open spec fn too_large(key: i64, len: int) -> PinaxError {
    PinaxError::Permanent {
        source: PermanentError::PayloadTooLarge { key, encoded_len: len as usize },
    }
}

fn too_large_as_u32(len: usize, key: i64) -> (r: Result<u32, PinaxError>)
    ensures
        match r {
            Ok(n) => len <= u32::MAX && n == len,
            Err(e) => len > u32::MAX && e == too_large(key, len as int),
        },
{
    if len as u64 <= 0xFFFF_FFFF {
        Ok(len as u32)
    } else {
        Err(PinaxError::Permanent {
            source: PermanentError::PayloadTooLarge { key, encoded_len: len },
        })
    }
}

fn invalid_encoding(reason: &'static str) -> (e: PinaxError)
    ensures
        e == (PinaxError::Fatal { source: FatalError::InvalidRowEncoding { reason } }),
{
    PinaxError::Fatal { source: FatalError::InvalidRowEncoding { reason } }
}

/// What was read, or the fault of bytes that end too early.
fn or_short<T>(read: Result<T, PinaxError>) -> (r: Result<T, PinaxError>)
    ensures
        match r {
            Ok(v) => read == Ok::<T, PinaxError>(v),
            Err(e) => read is Err && reports(e, Fault::Short),
        },
{
    match read {
        Ok(v) => Ok(v),
        Err(_) => Err(invalid_encoding("row payload ended too early")),
    }
}

/// Calls `String::from_utf8`: the bytes as a string if they are UTF-8, and
/// `None` if they are not.
#[verifier::external_body]
fn string_from_utf8(bytes: Vec<u8>) -> (r: Option<String>)
    ensures
        match r {
            Some(s) => utf8::valid_utf8(bytes@) && s@ == utf8::decode_utf8(bytes@),
            None => !utf8::valid_utf8(bytes@),
        },
{
    String::from_utf8(bytes).ok()
}

fn push_len_prefixed(buf: &mut Vec<u8>, bytes: &[u8], key: i64) -> (r: Result<(), PinaxError>)
    ensures
        match r {
            Ok(()) => bytes@.len() <= u32::MAX && final(buf)@ == old(buf)@ + prefixed(bytes@),
            Err(e) => bytes@.len() > u32::MAX && final(buf)@ == old(buf)@ && e == too_large(
                key,
                bytes@.len() as int,
            ),
        },
{
    let len: u32 = too_large_as_u32(bytes.len(), key)?;
    let prefix = u32_to_bytes(len);
    let ghost before = buf@;
    buf.extend_from_slice(&prefix);
    buf.extend_from_slice(bytes);
    assert(buf@ =~= before + prefixed(bytes@));
    Ok(())
}

/// Append the encoding of a value of the row that is stored under `key`. Of
/// a value that is too long, only its tag is appended.
pub fn encode_value(buf: &mut Vec<u8>, value: &Value, key: i64) -> (r: Result<(), PinaxError>)
    ensures
        match r {
            Ok(()) => prefix_of(value@) <= u32::MAX && final(buf)@ == old(buf)@ + value_bytes(
                value@,
            ),
            Err(e) => prefix_of(value@) > u32::MAX && final(buf)@ == old(buf)@.push(
                value_bytes(value@)[0],
            ) && e == too_large(key, prefix_of(value@) as int),
        },
{
    let ghost before = buf@;
    match value {
        Value::Null => {
            buf.push(TAG_NULL);
        },
        Value::Integer(v) => {
            let b = i64_to_bytes(*v);
            buf.push(TAG_INTEGER);
            buf.extend_from_slice(&b);
        },
        Value::Real(v) => {
            let b = u64_to_bytes((*v).get());
            buf.push(TAG_REAL);
            buf.extend_from_slice(&b);
        },
        Value::Text(s) => {
            buf.push(TAG_TEXT);
            push_len_prefixed(buf, s.as_str().as_bytes(), key)?;
        },
        Value::Blob(b) => {
            buf.push(TAG_BLOB);
            push_len_prefixed(buf, b.as_slice(), key)?;
        },
        Value::Boolean(v) => {
            buf.push(TAG_BOOLEAN);
            buf.push(
                if *v {
                    1
                } else {
                    0
                },
            );
        },
        Value::Datetime(v) => {
            let b = i64_to_bytes((*v).get());
            buf.push(TAG_DATETIME);
            buf.extend_from_slice(&b);
        },
    }
    assert(buf@ =~= before + value_bytes(value@));
    Ok(())
}

fn read_len_prefixed(buf: &[u8], at: usize) -> (r: Result<(Vec<u8>, usize), PinaxError>)
    ensures
        match r {
            Ok((bytes, end)) => parse_prefixed(buf@, at as int) == Ok::<_, Fault>(
                (bytes@, end as int),
            ) && end <= buf@.len(),
            Err(e) => parse_prefixed(buf@, at as int) is Err && reports(
                e,
                parse_prefixed(buf@, at as int)->Err_0,
            ),
        },
{
    assert(buf@.len() == buf.len());
    let len: u32 = or_short(read_u32(buf, at))?;
    let start: usize = at + 4;
    let bytes = or_short(read_vec(buf, start, len as usize))?;
    Ok((bytes, start + len as usize))
}

/// The value encoded at `at`, and where its encoding ends.
pub fn decode_value(buf: &[u8], at: usize) -> (r: Result<(Value, usize), PinaxError>)
    ensures
        match r {
            Ok((v, end)) => parse_value(buf@, at as int) == Ok::<_, Fault>((v@, end as int))
                && end <= buf@.len(),
            Err(e) => parse_value(buf@, at as int) is Err && reports(
                e,
                parse_value(buf@, at as int)->Err_0,
            ),
        },
{
    assert(buf@.len() == buf.len());
    let tag: u8 = or_short(read_u8(buf, at))?;
    let at: usize = at + 1;
    if tag == TAG_NULL {
        Ok((Value::Null, at))
    } else if tag == TAG_INTEGER {
        let v: i64 = or_short(read_i64(buf, at))?;
        Ok((Value::Integer(v), at + 8))
    } else if tag == TAG_REAL {
        let bits: u64 = or_short(read_u64(buf, at))?;
        match RealValue::try_from(bits) {
            Ok(v) => Ok((Value::Real(v), at + 8)),
            Err(_) => Err(invalid_encoding("REAL payload decoded to NaN")),
        }
    } else if tag == TAG_TEXT {
        let (bytes, end) = read_len_prefixed(buf, at)?;
        match string_from_utf8(bytes) {
            Some(text) => Ok((Value::Text(text), end)),
            None => Err(invalid_encoding("TEXT payload was not valid UTF-8")),
        }
    } else if tag == TAG_BLOB {
        let (bytes, end) = read_len_prefixed(buf, at)?;
        Ok((Value::Blob(bytes), end))
    } else if tag == TAG_BOOLEAN {
        let flag: u8 = or_short(read_u8(buf, at))?;
        Ok((Value::Boolean(flag != 0), at + 1))
    } else if tag == TAG_DATETIME {
        let v: i64 = or_short(read_i64(buf, at))?;
        Ok((Value::Datetime(DateTimeValue::from(v)), at + 8))
    } else {
        Err(invalid_encoding("unrecognized value type tag"))
    }
}

impl Row {
    /// No `REAL` in the row is NaN.
    pub open spec fn wf(self) -> bool {
        forall|i: int| 0 <= i < self@.len() ==> value::value_view_wf(#[trigger] self@[i])
    }

    /// A row of these values.
    #[must_use]
    pub fn new(values: Vec<Value>) -> (row: Self)
        ensures
            row@ == views(values@),
    {
        Row { values }
    }

    /// The row's values.
    #[must_use]
    pub fn values(&self) -> (values: &[Value])
        ensures
            views(values@) == self@,
    {
        self.values.as_slice()
    }

    /// Encode the row, which is stored under `key`.
    pub fn encode(&self, key: i64) -> (r: Result<Vec<u8>, PinaxError>)
        ensures
            match r {
                Ok(buf) => oversize(self@) is None && buf@ == row_bytes(self@),
                Err(e) => oversize(self@) is Some && e == too_large(key, oversize(self@)->0 as int),
            },
    {
        let mut buf: Vec<u8> = Vec::new();
        let n: usize = self.values.len();
        let count: u32 = too_large_as_u32(n, key)?;
        let prefix = u32_to_bytes(count);
        buf.extend_from_slice(&prefix);
        let ghost head = codec::u32_bytes(count);
        assert(buf@ =~= head);
        let mut i: usize = 0;
        assert(self@.take(0) =~= Seq::<ValueView>::empty());
        assert(buf@ =~= head + values_bytes(self@.take(0)));
        while i < n
            invariant
                i <= n,
                n == self.values@.len(),
                n == self@.len(),
                n <= u32::MAX,
                self@ == views(self.values@),
                buf@ == head + values_bytes(self@.take(i as int)),
                oversize_value(self@.take(i as int)) is None,
            decreases n - i,
        {
            let ghost done = self@.take(i as int);
            let ghost next = self@.take(i + 1);
            assert(next =~= done.push(self@[i as int]));
            assert(next.drop_last() =~= done);
            proof {
                values_bytes_push(done, self@[i as int]);
                if oversize_value(next) is Some {
                    oversize_prefix(self@, i + 1);
                }
            }
            encode_value(&mut buf, &self.values[i], key)?;
            assert(buf@ =~= head + values_bytes(next));
            i = i + 1;
        }
        assert(self@.take(n as int) =~= self@);
        Ok(buf)
    }

    /// Decode a row.
    pub fn decode(buf: &[u8]) -> (r: Result<Self, PinaxError>)
        ensures
            match r {
                Ok(row) => parse_row(buf@) == Ok::<_, Fault>(row@) && row.wf(),
                Err(e) => parse_row(buf@) is Err && reports(e, parse_row(buf@)->Err_0),
            },
    {
        let count: u32 = or_short(read_u32(buf, 0))?;
        let mut at: usize = 4;
        let mut values: Vec<Value> = Vec::new();
        let mut i: u32 = 0;
        while i < count
            invariant
                i <= count,
                4 <= at <= buf@.len(),
                count == codec::be_u32(buf@, 0),
                values@.len() == i,
                parse_row(buf@) == (match parse_values(buf@, at as int, (count - i) as nat) {
                    Ok(rest) => Ok(views(values@) + rest),
                    Err(f) => Err(f),
                }),
            decreases count - i,
        {
            let (value, next) = decode_value(buf, at)?;
            let ghost before = views(values@);
            let ghost v = value@;
            values.push(value);
            proof {
                assert(views(values@) =~= before.push(v));
                let rest = parse_values(buf@, next as int, (count - i - 1) as nat);
                if rest is Ok {
                    assert(before + (seq![v] + rest->Ok_0) =~= views(values@) + rest->Ok_0);
                }
            }
            at = next;
            i = i + 1;
        }
        assert(views(values@) + Seq::<ValueView>::empty() =~= views(values@));
        assert(parse_row(buf@) == Ok::<_, Fault>(views(values@)));
        proof {
            parsed_values_wf(buf@, 4, count as nat);
        }
        let row = Row { values };
        assert(row@ == views(values@));
        assert(parse_values(buf@, 4, count as nat) == Ok::<_, Fault>(row@));
        Ok(row)
    }
}

/// The first oversize length of a row's first values is that of the row.
proof fn oversize_prefix(vs: Seq<ValueView>, n: int)
    requires
        0 <= n <= vs.len(),
        oversize_value(vs.take(n)) is Some,
    ensures
        oversize_value(vs) == oversize_value(vs.take(n)),
    decreases vs.len() - n,
{
    if n < vs.len() {
        assert(vs.take(n + 1).drop_last() =~= vs.take(n));
        oversize_prefix(vs, n + 1);
    } else {
        assert(vs.take(n) =~= vs);
    }
}

/// No `REAL` among decoded values is NaN.
proof fn parsed_values_wf(b: Seq<u8>, at: int, count: nat)
    ensures
        parse_values(b, at, count) matches Ok(vs) ==> forall|i: int|
            0 <= i < vs.len() ==> value::value_view_wf(#[trigger] vs[i]),
    decreases count,
{
    if count > 0 {
        if let Ok((v, end)) = parse_value(b, at) {
            parsed_values_wf(b, end, (count - 1) as nat);
        }
    }
}

/// What `encode` returns, `decode` turns back into the row.
pub proof fn encoded_row_decodes(row: Row)
    requires
        row.wf(),
        oversize(row@) is None,
    ensures
        parse_row(row_bytes(row@)) == Ok::<_, Fault>(row@),
{
    row_round_trip(row@);
}

} // verus!
