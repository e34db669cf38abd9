//! What the byte formats promise: how numbers, values, rows, pages and meta
//! slots are laid out, and what is read of bytes, whatever they are.

use vstd::prelude::*;
use vstd::utf8;

use crate::codec;
use crate::database;
use crate::disk;
use crate::disk::IoView;
use crate::error;
use crate::error::{FatalError, PermanentError, PinaxError};
use crate::lexis::value;
use crate::lexis::value::ValueView;
use crate::page;
use crate::pager;
use crate::pager::MetaView;
use crate::row;
use crate::row::Fault;

verus! {

// ---- numbers ----

/// The number that bytes stand for, the first byte weighing most.
pub open spec fn big_endian(bytes: Seq<u8>) -> int
    decreases bytes.len(),
{
    if bytes.len() == 0 {
        0
    } else {
        0x100 * big_endian(bytes.drop_last()) + bytes.last()
    }
}

/// Four bytes stand for the sum of their weights.
proof fn four_bytes(b: Seq<u8>)
    requires
        b.len() == 4,
    ensures
        big_endian(b) == b[0] * 0x100_0000 + b[1] * 0x1_0000 + b[2] * 0x100 + b[3],
{
    reveal_with_fuel(big_endian, 5);
    let c = b.drop_last();
    let d = c.drop_last();
    let e = d.drop_last();
    assert(e.drop_last() =~= Seq::<u8>::empty());
}

/// Bytes behind others stand for less.
proof fn eight_bytes(a: Seq<u8>, b: Seq<u8>)
    requires
        b.len() == 4,
    ensures
        big_endian(a + b) == 0x1_0000_0000 * big_endian(a) + big_endian(b),
{
    reveal_with_fuel(big_endian, 5);
    let all = a + b;
    let c = b.drop_last();
    let d = c.drop_last();
    let e = d.drop_last();
    assert(e.drop_last() =~= Seq::<u8>::empty());
    assert(all.drop_last() =~= a + c);
    assert((a + c).drop_last() =~= a + d);
    assert((a + d).drop_last() =~= a + e);
    assert((a + e).drop_last() =~= a);
}

/// Numbers are written in big-endian bytes, a negative one as its two's
/// complement.
pub proof fn numbers_are_big_endian(a: u16, b: u32, c: u64, d: i64)
    ensures
        codec::u16_bytes(a).len() == 2 && big_endian(codec::u16_bytes(a)) == a,
        codec::u32_bytes(b).len() == 4 && big_endian(codec::u32_bytes(b)) == b,
        codec::u64_bytes(c).len() == 8 && big_endian(codec::u64_bytes(c)) == c,
        codec::i64_bytes(d).len() == 8 && big_endian(codec::i64_bytes(d)) == (if d >= 0 {
            d as int
        } else {
            d + 0x1_0000_0000_0000_0000
        }),
{
    reveal_with_fuel(big_endian, 3);
    let x = codec::u16_bytes(a);
    assert(x.drop_last().drop_last() =~= Seq::<u8>::empty());
    word_is_big_endian(b);
    long_is_big_endian(c);
    long_is_big_endian(codec::unsigned(d));
}

/// A number of four bytes is the number that its bytes stand for.
proof fn word_is_big_endian(v: u32)
    ensures
        codec::u32_bytes(v).len() == 4 && big_endian(codec::u32_bytes(v)) == v,
{
    let b = codec::u32_bytes(v);
    let n = v as int;
    four_bytes(b);
    assert(b[0] == n / 0x100_0000);
    assert(b[1] == n / 0x1_0000 % 0x100);
    assert(b[2] == n / 0x100 % 0x100);
    assert(b[3] == n % 0x100);
}

/// A number of eight bytes is the number that its bytes stand for.
proof fn long_is_big_endian(v: u64)
    ensures
        codec::u64_bytes(v).len() == 8 && big_endian(codec::u64_bytes(v)) == v,
{
    let hi = (v / 0x1_0000_0000) as u32;
    let lo = (v % 0x1_0000_0000) as u32;
    word_is_big_endian(hi);
    word_is_big_endian(lo);
    eight_bytes(codec::u32_bytes(hi), codec::u32_bytes(lo));
    assert(v == 0x1_0000_0000 * hi + lo);
}

/// Bytes are read as the big-endian numbers that they stand for.
pub proof fn reads_are_big_endian(s: Seq<u8>, at: int)
    requires
        0 <= at,
    ensures
        at + 2 <= s.len() ==> codec::be_u16(s, at) == big_endian(s.subrange(at, at + 2)),
        at + 4 <= s.len() ==> codec::be_u32(s, at) == big_endian(s.subrange(at, at + 4)),
        at + 8 <= s.len() ==> codec::be_u64(s, at) == big_endian(s.subrange(at, at + 8)),
        at + 8 <= s.len() ==> codec::be_i64(s, at) == (if s[at] < 0x80 {
            big_endian(s.subrange(at, at + 8))
        } else {
            big_endian(s.subrange(at, at + 8)) - 0x1_0000_0000_0000_0000
        }),
{
    if at + 2 <= s.len() {
        reveal_with_fuel(big_endian, 3);
        let x = s.subrange(at, at + 2);
        assert(x.drop_last().drop_last() =~= Seq::<u8>::empty());
    }
    if at + 4 <= s.len() {
        four_bytes(s.subrange(at, at + 4));
    }
    if at + 8 <= s.len() {
        let hi = s.subrange(at, at + 4);
        let lo = s.subrange(at + 4, at + 8);
        four_bytes(hi);
        four_bytes(lo);
        eight_bytes(hi, lo);
        assert(s.subrange(at, at + 8) =~= hi + lo);
        assert(codec::be_u32(s, at) == big_endian(hi));
        assert(codec::be_u32(s, at + 4) == big_endian(lo));
        assert(codec::be_u64(s, at) == codec::be_u32(s, at) * 0x1_0000_0000 + codec::be_u32(
            s,
            at + 4,
        ));
    }
}

/// Writing bytes over others changes these and no others.
pub proof fn patched_bytes_are_replaced(s: Seq<u8>, at: int, bytes: Seq<u8>)
    requires
        0 <= at,
        at + bytes.len() <= s.len(),
    ensures
        codec::patched(s, at, bytes) == s.take(at) + bytes + s.skip(at + bytes.len()),
{
    assert(codec::patched(s, at, bytes) =~= s.take(at) + bytes + s.skip(at + bytes.len()));
}

// ---- values and rows ----

/// A value is written as a tag of its type and then its content: a number in
/// eight bytes, a truth value in one, a text or a blob behind its length in
/// four.
pub proof fn values_are_tagged(v: ValueView)
    requires
        v matches ValueView::Text(s) ==> utf8::encode_utf8(s).len() <= 0xFFFF_FFFF,
        v matches ValueView::Blob(b) ==> b.len() <= 0xFFFF_FFFF,
    ensures
        ({
            let e = row::value_bytes(v);
            let rest = e.drop_first();
            &&& e.len() > 0
            &&& e[0] == (match v {
                ValueView::Null => 0u8,
                ValueView::Integer(_) => 1,
                ValueView::Real(_) => 2,
                ValueView::Text(_) => 3,
                ValueView::Blob(_) => 4,
                ValueView::Boolean(_) => 5,
                ValueView::Datetime(_) => 6,
            })
            &&& match v {
                ValueView::Null => rest.len() == 0,
                ValueView::Integer(n) => rest.len() == 8 && (big_endian(rest) - n)
                    % 0x1_0000_0000_0000_0000 == 0,
                ValueView::Datetime(n) => rest.len() == 8 && (big_endian(rest) - n)
                    % 0x1_0000_0000_0000_0000 == 0,
                ValueView::Real(bits) => rest.len() == 8 && big_endian(rest) == bits,
                ValueView::Boolean(t) => rest == seq![
                    if t {
                        1u8
                    } else {
                        0u8
                    },
                ],
                ValueView::Text(s) => {
                    &&& rest.len() == 4 + utf8::encode_utf8(s).len()
                    &&& big_endian(rest.take(4)) == utf8::encode_utf8(s).len()
                    &&& rest.skip(4) == utf8::encode_utf8(s)
                },
                ValueView::Blob(b) => {
                    &&& rest.len() == 4 + b.len()
                    &&& big_endian(rest.take(4)) == b.len()
                    &&& rest.skip(4) == b
                },
            }
        }),
{
    let e = row::value_bytes(v);
    let rest = e.drop_first();
    match v {
        ValueView::Null => {},
        ValueView::Integer(n) => {
            numbers_are_big_endian(0, 0, 0, n);
            assert(rest =~= codec::i64_bytes(n));
        },
        ValueView::Datetime(n) => {
            numbers_are_big_endian(0, 0, 0, n);
            assert(rest =~= codec::i64_bytes(n));
        },
        ValueView::Real(bits) => {
            numbers_are_big_endian(0, 0, bits, 0);
            assert(rest =~= codec::u64_bytes(bits));
        },
        ValueView::Boolean(t) => {
            assert(rest =~= seq![
                if t {
                    1u8
                } else {
                    0u8
                },
            ]);
        },
        ValueView::Text(s) => {
            let c = utf8::encode_utf8(s);
            numbers_are_big_endian(0, c.len() as u32, 0, 0);
            assert(rest =~= codec::u32_bytes(c.len() as u32) + c);
            assert(rest.take(4) =~= codec::u32_bytes(c.len() as u32));
            assert(rest.skip(4) =~= c);
        },
        ValueView::Blob(c) => {
            numbers_are_big_endian(0, c.len() as u32, 0, 0);
            assert(rest =~= codec::u32_bytes(c.len() as u32) + c);
            assert(rest.take(4) =~= codec::u32_bytes(c.len() as u32));
            assert(rest.skip(4) =~= c);
        },
    }
}

/// A row is written as its column count in four bytes and then its values,
/// in order: one value more is that value's bytes more.
pub proof fn rows_are_counted_values(vs: Seq<ValueView>, v: ValueView)
    ensures
        row::row_bytes(Seq::empty()) == seq![0u8, 0, 0, 0],
        vs.len() <= 0xFFFF_FFFF ==> big_endian(row::row_bytes(vs).take(4)) == vs.len(),
        row::row_bytes(vs.push(v)).skip(4) == row::row_bytes(vs).skip(4) + row::value_bytes(v),
{
    let none = Seq::<ValueView>::empty();
    assert(codec::u32_bytes(0) =~= seq![0u8, 0, 0, 0]);
    assert(row::row_bytes(none) =~= seq![0u8, 0, 0, 0]);
    numbers_are_big_endian(0, vs.len() as u32, 0, 0);
    assert(row::row_bytes(vs).take(4) =~= codec::u32_bytes(vs.len() as u32));
    row::values_bytes_push(vs, v);
    assert(row::row_bytes(vs).skip(4) =~= row::values_bytes(vs));
    assert(row::row_bytes(vs.push(v)).skip(4) =~= row::values_bytes(vs.push(v)));
}

/// A row can be encoded if its column count and its texts and blobs have
/// lengths of 32 bits at most, and only then.
pub proof fn rows_with_short_lengths_encode(vs: Seq<ValueView>)
    ensures
        row::oversize(vs) is None <==> vs.len() <= 0xFFFF_FFFF && forall|i: int|
            0 <= i < vs.len() ==> match #[trigger] vs[i] {
                ValueView::Text(s) => utf8::encode_utf8(s).len() <= 0xFFFF_FFFF,
                ValueView::Blob(b) => b.len() <= 0xFFFF_FFFF,
                _ => true,
            },
{
    short_lengths(vs);
}

proof fn short_lengths(vs: Seq<ValueView>)
    ensures
        row::oversize_value(vs) is None <==> forall|i: int|
            0 <= i < vs.len() ==> match #[trigger] vs[i] {
                ValueView::Text(s) => utf8::encode_utf8(s).len() <= 0xFFFF_FFFF,
                ValueView::Blob(b) => b.len() <= 0xFFFF_FFFF,
                _ => true,
            },
    decreases vs.len(),
{
    if vs.len() > 0 {
        let first = vs.drop_last();
        short_lengths(first);
        if row::oversize_value(vs) is None {
            assert forall|i: int| 0 <= i < vs.len() implies match #[trigger] vs[i] {
                ValueView::Text(s) => utf8::encode_utf8(s).len() <= 0xFFFF_FFFF,
                ValueView::Blob(b) => b.len() <= 0xFFFF_FFFF,
                _ => true,
            } by {
                if i < first.len() {
                    assert(first[i] == vs[i]);
                }
            }
        } else if row::oversize_value(first) is Some {
            let i = choose|i: int|
                0 <= i < first.len() && !(match #[trigger] first[i] {
                    ValueView::Text(s) => utf8::encode_utf8(s).len() <= 0xFFFF_FFFF,
                    ValueView::Blob(b) => b.len() <= 0xFFFF_FFFF,
                    _ => true,
                });
            assert(vs[i] == first[i]);
        } else {
            assert(vs[vs.len() - 1] == vs.last());
        }
    }
}

/// What is decoded as a value is that value's encoding, where it stands.
/// (Any byte but zero is read as true.)
pub proof fn decoded_value_is_what_stands_there(b: Seq<u8>, at: int, v: ValueView, end: int)
    requires
        0 <= at,
        row::parse_value(b, at) == Ok::<_, Fault>((v, end)),
    ensures
        at < end <= b.len(),
        v matches ValueView::Real(bits) ==> !value::is_nan_bits(bits),
        v is Boolean ==> end == at + 2 && b[at] == 5 && (v == ValueView::Boolean(true) <==> b[at
            + 1] != 0),
        !(v is Boolean) ==> b.subrange(at, end) == row::value_bytes(v),
{
    let e = row::value_bytes(v);
    if v is Integer || v is Datetime || v is Real {
        codec::u64_bytes_of_read(b, at + 1);
        let u = codec::be_u64(b, at + 1);
        assert(codec::unsigned(codec::signed(u)) == u);
        assert(b.subrange(at, end) =~= seq![b[at]] + b.subrange(at + 1, at + 9));
        assert(b.subrange(at, end) =~= e);
    } else if v is Text || v is Blob {
        let n = codec::be_u32(b, at + 1);
        let bytes = b.subrange(at + 5, end);
        codec::u32_bytes_of_read(b, at + 1);
        assert(bytes.len() == n);
        if v is Text {
            utf8::decode_utf8_encode_utf8(bytes);
        }
        assert(b.subrange(at, end) =~= seq![b[at]] + b.subrange(at + 1, at + 5) + bytes);
        assert(b.subrange(at, end) =~= e);
    } else if v is Null {
        assert(b.subrange(at, end) =~= e);
    }
}

/// Bytes that are not decoded as a value encode none, and the fault says
/// why: the tag is above six, the double is NaN, the text is not UTF-8, or
/// the bytes end before the value does.
pub proof fn undecodable_bytes_encode_no_value(b: Seq<u8>, at: int, f: Fault, v: ValueView)
    requires
        0 <= at,
        row::parse_value(b, at) == Err::<(ValueView, int), Fault>(f),
    ensures
        f is BadTag <==> at < b.len() && b[at] > 6,
        f is Nan ==> b[at] == 2 && value::is_nan_bits(codec::be_u64(b, at + 1)),
        f is BadUtf8 ==> b[at] == 3 && !utf8::valid_utf8(
            b.subrange(at + 5, at + 5 + codec::be_u32(b, at + 1)),
        ),
        f is Short ==> at >= b.len() || ((b[at] == 1 || b[at] == 2 || b[at] == 6) && at + 9
            > b.len()) || (b[at] == 5 && at + 2 > b.len()) || ((b[at] == 3 || b[at] == 4) && (at + 5
            > b.len() || at + 5 + codec::be_u32(b, at + 1) > b.len())),
        value::value_view_wf(v) && row::prefix_of(v) <= 0xFFFF_FFFF && at + row::value_bytes(
            v,
        ).len() <= b.len() ==> b.subrange(at, at + row::value_bytes(v).len())
            != row::value_bytes(v),
{
    let n = row::value_bytes(v).len();
    if value::value_view_wf(v) && row::prefix_of(v) <= 0xFFFF_FFFF && at + n <= b.len()
        && b.subrange(at, at + n) == row::value_bytes(v) {
        row::value_round_trip(b, at, v);
    }
}

/// Of the lengths of a row that do not fit 32 bits the first is named: the
/// column count, then the texts and blobs in their order.
pub proof fn first_long_length_is_named(vs: Seq<ValueView>, i: int)
    requires
        0 <= i < vs.len(),
        forall|j: int|
            0 <= j < i ==> match #[trigger] vs[j] {
                ValueView::Text(s) => utf8::encode_utf8(s).len() <= 0xFFFF_FFFF,
                ValueView::Blob(b) => b.len() <= 0xFFFF_FFFF,
                _ => true,
            },
    ensures
        vs.len() > 0xFFFF_FFFF ==> row::oversize(vs) == Some(vs.len()),
        vs.len() <= 0xFFFF_FFFF ==> match vs[i] {
            ValueView::Text(s) => utf8::encode_utf8(s).len() > 0xFFFF_FFFF ==> row::oversize(vs)
                == Some(utf8::encode_utf8(s).len()),
            ValueView::Blob(b) => b.len() > 0xFFFF_FFFF ==> row::oversize(vs) == Some(b.len()),
            _ => true,
        },
    decreases vs.len(),
{
    if i == vs.len() - 1 {
        let before = vs.drop_last();
        assert forall|j: int| 0 <= j < before.len() implies match #[trigger] before[j] {
            ValueView::Text(s) => utf8::encode_utf8(s).len() <= 0xFFFF_FFFF,
            ValueView::Blob(b) => b.len() <= 0xFFFF_FFFF,
            _ => true,
        } by {
            assert(before[j] == vs[j]);
        }
        short_lengths(before);
    } else {
        let before = vs.drop_last();
        assert forall|j: int| 0 <= j < i implies match #[trigger] before[j] {
            ValueView::Text(s) => utf8::encode_utf8(s).len() <= 0xFFFF_FFFF,
            ValueView::Blob(b) => b.len() <= 0xFFFF_FFFF,
            _ => true,
        } by {
            assert(before[j] == vs[j]);
        }
        assert(before[i] == vs[i]);
        first_long_length_is_named(before, i);
    }
}

/// A row is decoded as its announced count of values, each from where the
/// one before it ends.
pub proof fn rows_decode_value_by_value(b: Seq<u8>, at: int, count: nat)
    ensures
        row::parse_values(b, at, 0) == Ok::<_, Fault>(Seq::<ValueView>::empty()),
        match row::parse_value(b, at) {
            Err(f) => row::parse_values(b, at, count + 1) == Err::<Seq<ValueView>, Fault>(f),
            Ok((v, end)) => match row::parse_values(b, end, count) {
                Err(f) => row::parse_values(b, at, count + 1) == Err::<Seq<ValueView>, Fault>(f),
                Ok(vs) => row::parse_values(b, at, count + 1) == Ok::<_, Fault>(seq![v] + vs),
            },
        },
        b.len() < 4 ==> row::parse_row(b) == Err::<Seq<ValueView>, Fault>(Fault::Short),
        b.len() >= 4 ==> row::parse_row(b) == row::parse_values(
            b,
            4,
            big_endian(b.take(4)) as nat,
        ),
{
    if b.len() >= 4 {
        reads_are_big_endian(b, 0);
        assert(b.subrange(0, 4) =~= b.take(4));
    }
}

/// A decoded row has as many values as its first four bytes say.
pub proof fn decoded_row_has_the_announced_count(b: Seq<u8>, vs: Seq<ValueView>)
    requires
        row::parse_row(b) == Ok::<_, Fault>(vs),
    ensures
        b.len() >= 4,
        vs.len() == big_endian(b.take(4)),
{
    reads_are_big_endian(b, 0);
    assert(b.subrange(0, 4) =~= b.take(4));
    values_are_counted(b, 4, codec::be_u32(b, 0) as nat);
}

proof fn values_are_counted(b: Seq<u8>, at: int, count: nat)
    ensures
        row::parse_values(b, at, count) matches Ok(vs) ==> vs.len() == count,
    decreases count,
{
    if count > 0 {
        if let Ok((v, end)) = row::parse_value(b, at) {
            values_are_counted(b, end, (count - 1) as nat);
        }
    }
}

/// The error of a row that does not decode says which fault it is.
pub proof fn faults_are_told_apart(e: PinaxError, f: Fault, g: Fault)
    requires
        row::reports(e, f),
    ensures
        e matches PinaxError::Fatal { source: FatalError::InvalidRowEncoding { reason } } && reason@
            == (match f {
            Fault::Short => "row payload ended too early"@,
            Fault::BadTag => "unrecognized value type tag"@,
            Fault::Nan => "REAL payload decoded to NaN"@,
            Fault::BadUtf8 => "TEXT payload was not valid UTF-8"@,
        }),
        row::reports(e, g) ==> f == g,
{
    reveal_strlit("row payload ended too early");
    reveal_strlit("unrecognized value type tag");
    reveal_strlit("REAL payload decoded to NaN");
    reveal_strlit("TEXT payload was not valid UTF-8");
    assert("row payload ended too early"@[0] == 'r');
    assert("unrecognized value type tag"@[0] == 'u');
    assert("REAL payload decoded to NaN"@[0] == 'R');
    assert("TEXT payload was not valid UTF-8"@[0] == 'T');
}

// ---- errors ----

/// What the errors of the library's own making say.
pub proof fn errors_say_what_happened(
    key: i64,
    n: nat,
    at: usize,
    len: usize,
    buf_len: usize,
    requested: u32,
)
    requires
        n <= usize::MAX,
    ensures
        row::too_large(key, n as int) matches PinaxError::Permanent {
            source: PermanentError::PayloadTooLarge { key: k, encoded_len },
        } && k == key && encoded_len == n,
        crate::btree::key_exists(key) == (PinaxError::Permanent {
            source: PermanentError::KeyAlreadyExists { key },
        }),
        crate::btree::key_not_found(key) == (PinaxError::Permanent {
            source: PermanentError::KeyNotFound { key },
        }),
        error::exhausted() == (PinaxError::Fatal { source: FatalError::CounterExhausted }),
        page::invalid_page_size(requested) == (PinaxError::Permanent {
            source: PermanentError::InvalidPageSize { requested },
        }),
        error::bounds_error(at as int, len as int, buf_len as int) == (PinaxError::Fatal {
            source: FatalError::BufferBounds { at, len, buf_len },
        }),
{
}

/// An error that reports a page's type says the page, the type that its place
/// calls for, and the byte that it has; no other error does.
pub proof fn type_errors_say_the_page(e: PinaxError, id: u32, label: Seq<char>, byte: u8)
    ensures
        error::wrong_type(e, id, label, byte) <==> (e matches PinaxError::Fatal {
            source: FatalError::UnexpectedPageType { page_id, expected, actual },
        } && page_id == id && expected@ == label && actual == byte),
        error::is_wrong_type(e) <==> (e matches PinaxError::Fatal {
            source: FatalError::UnexpectedPageType { .. },
        }),
        error::is_bounds_error(e) <==> (e matches PinaxError::Fatal {
            source: FatalError::BufferBounds { .. },
        }),
{
}

// ---- pages ----

/// The page sizes are the powers of two from 4096 to 65536.
pub proof fn page_sizes_are_powers_of_two(n: int)
    ensures
        page::valid_page_size(4096),
        page::valid_page_size(n) ==> 4096 <= n <= 65536,
        n != 65536 ==> (page::valid_page_size(n) ==> page::valid_page_size(2 * n)),
        n != 4096 && page::valid_page_size(n) ==> n % 2 == 0 && page::valid_page_size(n / 2),
        page::valid_page_size(65536),
{
}

/// The checksum of a page is the hash of all its bytes but the last eight,
/// and stands in these.
pub proof fn checksum_covers_the_page(b: Seq<u8>)
    requires
        b.len() >= 8,
    ensures
        page::body(b) == b.take(b.len() - 8),
        page::checksum_of(b) == page::xxh3_64_of(b.take(b.len() - 8)),
        page::stored_checksum(b) == big_endian(b.skip(b.len() - 8)),
        page::checksum_ok(b) <==> big_endian(b.skip(b.len() - 8)) == page::xxh3_64_of(
            b.take(b.len() - 8),
        ),
{
    assert(page::body(b) =~= b.take(b.len() - 8));
    reads_are_big_endian(b, b.len() - 8);
    assert(b.subrange(b.len() - 8, b.len() as int) =~= b.skip(b.len() - 8));
}

/// Bytes with no room for a checksum carry the number zero, and have the hash
/// of no bytes.
pub proof fn short_pages_have_no_body(b: Seq<u8>)
    requires
        b.len() < 8,
    ensures
        page::body(b).len() == 0,
        page::stored_checksum(b) == 0,
        page::checksum_of(b) == page::xxh3_64_of(Seq::empty()),
        page::checksum_ok(b) <==> page::xxh3_64_of(Seq::empty()) == 0,
{
    assert(page::body(b) =~= Seq::<u8>::empty());
}

/// Stamping a page keeps its content and puts the content's hash behind it.
pub proof fn stamp_is_the_hash(content: Seq<u8>)
    ensures
        page::stamped(content).len() == content.len() + 8,
        page::stamped(content).take(content.len() as int) == content,
        big_endian(page::stamped(content).skip(content.len() as int)) == page::xxh3_64_of(content),
{
    let b = page::stamped(content);
    numbers_are_big_endian(0, 0, page::xxh3_64_of(content), 0);
    assert(b.take(content.len() as int) =~= content);
    assert(b.skip(content.len() as int) =~= codec::u64_bytes(page::xxh3_64_of(content)));
}

/// Sealing a page keeps its content and puts the given checksum behind it.
pub proof fn seal_is_the_checksum(content: Seq<u8>, checksum: u64)
    ensures
        page::sealed(content, checksum).take(content.len() as int) == content,
        page::sealed(content, checksum).len() == content.len() + 8,
        big_endian(page::sealed(content, checksum).skip(content.len() as int)) == checksum,
{
    let b = page::sealed(content, checksum);
    long_is_big_endian(checksum);
    assert(b.take(content.len() as int) =~= content);
    assert(b.skip(content.len() as int) =~= codec::u64_bytes(checksum));
}

/// The data pages follow each other without a gap, from behind the two meta
/// slots on.
pub proof fn pages_follow_each_other(id: u32, size: int)
    requires
        2 <= id < 0xFFFF_FFFF,
    ensures
        disk::page_offset(0, size) == 8192 && disk::page_offset(1, size) == 8192,
        disk::page_offset(2, size) == 8192,
        disk::page_offset((id + 1) as u32, size) == disk::page_offset(id, size) + size,
{
    let x = id - 2;
    assert((x + 1) * size == x * size + size) by (nonlinear_arith);
}

/// How much of a payload a leaf page keeps, and how much an overflow page
/// holds.
pub proof fn payload_room(size: int, len: nat)
    requires
        page::valid_page_size(size),
    ensures
        page::max_local_of(size) == size - 43,
        crate::btree::overflow::chunk_cap(size) == size - 13,
        crate::btree::overflow::spilled(len, size) == (if len <= size - 43 {
            0
        } else {
            len - (size - 43)
        }),
        database::DEFAULT_BUFFER_POOL_CAPACITY == 256,
{
}

// ---- meta slots ----

/// The pieces that a meta slot is put together from, where they stand in it.
#[verifier::rlimit(60)]
#[verifier::spinoff_prover]
proof fn meta_slot_pieces(m: MetaView)
    ensures
        ({
            let b = pager::meta_slot(m);
            &&& pager::meta_body(m).len() == 4088
            &&& b.len() == 4096
            &&& b.take(4) == seq![0x50u8, 0x4E, 0x58, 0x31]
            &&& b.subrange(4, 6) == codec::u16_bytes(1)
            &&& b.subrange(6, 10) == codec::u32_bytes(m.size as u32)
            &&& b.subrange(10, 18) == codec::u64_bytes(m.txn_id)
            &&& b.subrange(18, 22) == codec::u32_bytes(m.root)
            &&& b.subrange(22, 26) == codec::u32_bytes(m.count)
        }),
{
    let b = pager::meta_slot(m);
    assert(b.take(4) =~= seq![0x50u8, 0x4E, 0x58, 0x31]);
    assert(b.subrange(4, 6) =~= codec::u16_bytes(1));
    assert(b.subrange(6, 10) =~= codec::u32_bytes(m.size as u32));
    assert(b.subrange(10, 18) =~= codec::u64_bytes(m.txn_id));
    assert(b.subrange(18, 22) =~= codec::u32_bytes(m.root));
    assert(b.subrange(22, 26) =~= codec::u32_bytes(m.count));
}

/// What stands behind the fields of a meta slot, before its checksum, is
/// zero.
#[verifier::rlimit(60)]
#[verifier::spinoff_prover]
proof fn meta_slot_zeros(m: MetaView, i: int)
    requires
        26 <= i < 4088,
    ensures
        pager::meta_slot(m)[i] == 0,
{
    let c = pager::meta_body(m);
    assert(pager::meta_slot(m)[i] == c[i]);
    assert(codec::u32_bytes(0) =~= seq![0u8, 0, 0, 0]);
    if i < 30 {
        assert(c[i] == codec::u32_bytes(0)[i - 26]);
    }
}

/// A meta slot has 4096 bytes and says the page size, the transaction
/// number, the root and the page count in its fields, behind the four bytes
/// `PNX1` and the version.
#[verifier::rlimit(60)]
#[verifier::spinoff_prover]
pub proof fn meta_slot_fields(m: MetaView)
    requires
        page::valid_page_size(m.size),
    ensures
        ({
            let b = pager::meta_slot(m);
            &&& b.len() == 4096
            &&& b.take(4) == seq![0x50u8, 0x4E, 0x58, 0x31]
            &&& big_endian(b.subrange(4, 6)) == 1
            &&& big_endian(b.subrange(6, 10)) == m.size
            &&& big_endian(b.subrange(10, 18)) == m.txn_id
            &&& big_endian(b.subrange(18, 22)) == m.root
            &&& big_endian(b.subrange(22, 26)) == m.count
            &&& forall|i: int| 26 <= i < 4088 ==> #[trigger] b[i] == 0
            &&& big_endian(b.skip(4088)) == page::xxh3_64_of(b.take(4088))
        }),
{
    let b = pager::meta_slot(m);
    meta_slot_pieces(m);
    stamp_is_the_hash(pager::meta_body(m));
    numbers_are_big_endian(1, m.size as u32, m.txn_id, 0);
    word_is_big_endian(m.root);
    word_is_big_endian(m.count);
    assert forall|i: int| 26 <= i < 4088 implies #[trigger] b[i] == 0 by {
        meta_slot_zeros(m, i);
    }
}

/// Bytes say what a meta slot says if and only if there are 26 of them, they
/// start with `PNX1`, and they say a valid page size.
#[verifier::rlimit(60)]
#[verifier::spinoff_prover]
pub proof fn slots_that_decode(b: Seq<u8>)
    ensures
        b.len() < 26 ==> pager::meta_of(b) is None,
        b.len() >= 26 ==> (pager::meta_of(b) is Some <==> b.take(4) == seq![
            0x50u8,
            0x4E,
            0x58,
            0x31,
        ] && page::valid_page_size(big_endian(b.subrange(6, 10)))),
        pager::meta_of(b) matches Some(m) ==> {
            &&& m.size == big_endian(b.subrange(6, 10))
            &&& m.txn_id == big_endian(b.subrange(10, 18))
            &&& m.root == big_endian(b.subrange(18, 22))
            &&& m.count == big_endian(b.subrange(22, 26))
        },
        pager::slot_meta(b) == (if page::checksum_ok(b) {
            pager::meta_of(b)
        } else {
            None
        }),
{
    if b.len() >= 26 {
        reads_are_big_endian(b, 6);
        reads_are_big_endian(b, 10);
        reads_are_big_endian(b, 18);
        reads_are_big_endian(b, 22);
        assert(b.subrange(0, 4) =~= b.take(4));
    }
}

/// A meta slot is usable if and only if its checksum verifies, it starts
/// with `PNX1`, and it says a valid page size; it then says what its fields
/// hold.
#[verifier::rlimit(60)]
#[verifier::spinoff_prover]
pub proof fn usable_slots(b: Seq<u8>)
    requires
        b.len() == 4096,
    ensures
        pager::slot_meta(b) is Some <==> page::checksum_ok(b) && b.take(4) == seq![
            0x50u8,
            0x4E,
            0x58,
            0x31,
        ] && page::valid_page_size(big_endian(b.subrange(6, 10))),
        pager::slot_meta(b) matches Some(m) ==> {
            &&& m.size == big_endian(b.subrange(6, 10))
            &&& m.txn_id == big_endian(b.subrange(10, 18))
            &&& m.root == big_endian(b.subrange(18, 22))
            &&& m.count == big_endian(b.subrange(22, 26))
        },
{
    reads_are_big_endian(b, 6);
    reads_are_big_endian(b, 10);
    reads_are_big_endian(b, 18);
    reads_are_big_endian(b, 22);
    assert(b.subrange(0, 4) =~= b.take(4));
}

/// Of two meta slots, one that is usable is in force, and it has the highest
/// transaction number of those that are; of equal ones it is the first.
pub proof fn newest_usable_slot_is_in_force(a: Seq<u8>, b: Seq<u8>)
    ensures
        pager::recovered(a, b) is None <==> pager::slot_meta(a) is None && pager::slot_meta(
            b,
        ) is None,
        pager::recovered(a, b) matches Some((slot, m)) ==> {
            &&& slot == 0 && pager::slot_meta(a) == Some(m) || slot == 1 && pager::slot_meta(b)
                == Some(m)
            &&& pager::slot_meta(a) matches Some(x) ==> x.txn_id <= m.txn_id
            &&& pager::slot_meta(b) matches Some(y) ==> y.txn_id <= m.txn_id
            &&& slot == 1 ==> (pager::slot_meta(a) matches Some(x) ==> x.txn_id < m.txn_id)
        },
{
}

/// A fresh database has no tree, transaction number zero, and page ids from
/// two on; a commit sets the root and the count, and counts the transaction.
pub proof fn commits_count_up(m: MetaView, root: u32, count: u32, size: int)
    requires
        m.txn_id < u64::MAX,
    ensures
        pager::fresh_meta(size) == (MetaView { size, txn_id: 0, root: 0, count: 2 }),
        pager::next_meta(m, root, count).txn_id == m.txn_id + 1,
        pager::next_meta(m, root, count).root == root,
        pager::next_meta(m, root, count).count == count,
        pager::next_meta(m, root, count).size == m.size,
{
}

/// A commit syncs what was written before, then writes one meta slot, not
/// the one in force, and syncs again.
#[verifier::rlimit(60)]
#[verifier::spinoff_prover]
pub proof fn commit_writes_the_other_slot_between_syncs(
    m: MetaView,
    active: int,
    root: u32,
    count: u32,
)
    requires
        active == 0 || active == 1,
        page::valid_page_size(m.size),
        m.txn_id < u64::MAX,
    ensures
        ({
            let actions = pager::commit_actions(m, active, root, count);
            &&& actions.len() == 3
            &&& actions[0] is SyncData
            &&& actions[2] is SyncAll
            &&& actions[1] matches IoView::Write { offset, bytes } && {
                &&& offset == 4096 * (1 - active)
                &&& bytes.len() == 4096
                &&& pager::slot_meta(bytes) == Some(
                    MetaView { size: m.size, txn_id: (m.txn_id + 1) as u64, root, count },
                )
            }
        }),
{
    pager::meta_slot_round_trip(pager::next_meta(m, root, count));
}

/// Creating a file writes a meta slot and an unused one behind it, and
/// syncs.
#[verifier::rlimit(60)]
#[verifier::spinoff_prover]
pub proof fn create_writes_both_slots(size: int)
    requires
        page::valid_page_size(size),
    ensures
        ({
            let actions = pager::create_actions(pager::fresh_meta(size));
            &&& actions.len() == 2
            &&& actions[1] is SyncAll
            &&& actions[0] matches IoView::Write { offset, bytes } && {
                &&& offset == 0
                &&& bytes.len() == 8192
                &&& pager::slot_meta(bytes.take(4096)) == Some(
                    MetaView { size, txn_id: 0, root: 0, count: 2 },
                )
                &&& forall|i: int| 4096 <= i < 8192 ==> #[trigger] bytes[i] == 0
            }
        }),
{
    let m = pager::fresh_meta(size);
    pager::meta_slot_round_trip(m);
    let bytes = pager::meta_slot(m) + Seq::new(4096, |i: int| 0u8);
    assert(bytes.take(4096) =~= pager::meta_slot(m));
}

/// Creating a database succeeds if and only if its capacity is not zero, and
/// what is to be written to its file does not depend on that.
pub proof fn databases_that_are_created(
    page_size: page::PageSize,
    capacity: usize,
    actions: Seq<disk::IoAction>,
    made: Result<database::Database, PinaxError>,
)
    requires
        database::created(page_size, capacity, actions, made),
    ensures
        disk::io_views(actions) == pager::create_actions(
            MetaView { size: page_size.size(), txn_id: 0, root: 0, count: 2 },
        ),
        made is Ok <==> capacity >= 1,
        made matches Err(e) ==> e == (PinaxError::Permanent {
            source: PermanentError::InvalidBufferPoolCapacity,
        }),
        made matches Ok(db) ==> {
            let v = db.pool_view();
            &&& v.meta == (MetaView { size: page_size.size(), txn_id: 0, root: 0, count: 2 })
            &&& v.active == 0
            &&& v.capacity == capacity
            &&& v.next_id == 2
            &&& v.pending is None
        },
{
}

/// Opening a file succeeds if and only if it has room for both meta slots,
/// one of them is usable, and the capacity is not zero; the error says which
/// of these is not so, in this order.
pub proof fn files_that_open(
    actual_len: u64,
    slot_a: Seq<u8>,
    slot_b: Seq<u8>,
    capacity: usize,
    r: Result<database::Database, PinaxError>,
)
    requires
        database::opened(actual_len, slot_a, slot_b, capacity, r),
    ensures
        r is Ok <==> actual_len >= 8192 && (pager::slot_meta(slot_a) is Some || pager::slot_meta(
            slot_b,
        ) is Some) && capacity >= 1,
        r matches Err(e) ==> e == (if actual_len < 8192 {
            PinaxError::Fatal { source: FatalError::FileTooSmall { actual_len, min_len: 8192 } }
        } else if pager::slot_meta(slot_a) is None && pager::slot_meta(slot_b) is None {
            PinaxError::Fatal { source: FatalError::NoValidMetaPage }
        } else {
            PinaxError::Permanent { source: PermanentError::InvalidBufferPoolCapacity }
        }),
        r matches Ok(db) ==> {
            let v = db.pool_view();
            &&& v.active == 0 && pager::slot_meta(slot_a) == Some(v.meta) || v.active == 1
                && pager::slot_meta(slot_b) == Some(v.meta)
            &&& v.capacity == capacity
            &&& v.next_id == v.meta.count
            &&& v.pending is None
        },
{
}

} // verus!
