//! Bounds-checked big-endian byte access for page buffers.
//!
//! Every accessor answers an out-of-bounds range with
//! [`FatalError::BufferBounds`](crate::error::FatalError), so that a
//! malformed page becomes an error that the caller can classify.

use vstd::prelude::*;

use crate::error;
use crate::error::{buffer_bounds, PinaxError};

verus! {

/// Two big-endian bytes at `at`.
pub open spec fn be_u16(s: Seq<u8>, at: int) -> u16 {
    (s[at] * 0x100 + s[at + 1]) as u16
}

/// Four big-endian bytes at `at`.
pub open spec fn be_u32(s: Seq<u8>, at: int) -> u32 {
    (s[at] * 0x100_0000 + s[at + 1] * 0x1_0000 + s[at + 2] * 0x100 + s[at + 3]) as u32
}

/// Eight big-endian bytes at `at`.
pub open spec fn be_u64(s: Seq<u8>, at: int) -> u64 {
    (be_u32(s, at) * 0x1_0000_0000 + be_u32(s, at + 4)) as u64
}

/// The signed number whose two's complement is `u`.
pub open spec fn signed(u: u64) -> i64 {
    if u < 0x8000_0000_0000_0000 {
        u as i64
    } else {
        (u - 0x1_0000_0000_0000_0000) as i64
    }
}

/// The two's complement of `v`.
pub open spec fn unsigned(v: i64) -> u64 {
    if v >= 0 {
        v as u64
    } else {
        (v + 0x1_0000_0000_0000_0000) as u64
    }
}

/// Eight big-endian bytes at `at`, as a two's complement number.
pub open spec fn be_i64(s: Seq<u8>, at: int) -> i64 {
    signed(be_u64(s, at))
}

/// The big-endian bytes of a `u16`.
pub open spec fn u16_bytes(v: u16) -> Seq<u8> {
    seq![(v / 0x100) as u8, (v % 0x100) as u8]
}

/// The big-endian bytes of a `u32`.
pub open spec fn u32_bytes(v: u32) -> Seq<u8> {
    seq![
        (v / 0x100_0000) as u8,
        (v / 0x1_0000 % 0x100) as u8,
        (v / 0x100 % 0x100) as u8,
        (v % 0x100) as u8,
    ]
}

/// The big-endian bytes of a `u64`.
pub open spec fn u64_bytes(v: u64) -> Seq<u8> {
    u32_bytes((v / 0x1_0000_0000) as u32) + u32_bytes((v % 0x1_0000_0000) as u32)
}

/// The big-endian two's complement bytes of an `i64`.
pub open spec fn i64_bytes(v: i64) -> Seq<u8> {
    u64_bytes(unsigned(v))
}

/// `s` with the bytes from `at` on replaced by `bytes`.
pub open spec fn patched(s: Seq<u8>, at: int, bytes: Seq<u8>) -> Seq<u8> {
    Seq::new(
        s.len(),
        |i: int|
            if at <= i < at + bytes.len() {
                bytes[i - at]
            } else {
                s[i]
            },
    )
}

/// Reading two bytes gives back the `u16` whose bytes were written there.
pub proof fn u16_round_trip(s: Seq<u8>, at: int, v: u16)
    requires
        0 <= at,
        at + 2 <= s.len(),
        s.subrange(at, at + 2) == u16_bytes(v),
    ensures
        be_u16(s, at) == v,
{
    let w = s.subrange(at, at + 2);
    assert(w[0] == s[at] && w[1] == s[at + 1]);
}

/// Reading four bytes gives back the `u32` whose bytes were written there.
pub proof fn u32_round_trip(s: Seq<u8>, at: int, v: u32)
    requires
        0 <= at,
        at + 4 <= s.len(),
        s.subrange(at, at + 4) == u32_bytes(v),
    ensures
        be_u32(s, at) == v,
{
    let w = s.subrange(at, at + 4);
    assert(w[0] == s[at] && w[1] == s[at + 1] && w[2] == s[at + 2] && w[3] == s[at + 3]);
}

/// Reading eight bytes gives back the `u64` whose bytes were written there.
pub proof fn u64_round_trip(s: Seq<u8>, at: int, v: u64)
    requires
        0 <= at,
        at + 8 <= s.len(),
        s.subrange(at, at + 8) == u64_bytes(v),
    ensures
        be_u64(s, at) == v,
{
    let hi = (v / 0x1_0000_0000) as u32;
    let lo = (v % 0x1_0000_0000) as u32;
    let w = s.subrange(at, at + 8);
    assert(s.subrange(at, at + 4) =~= w.subrange(0, 4));
    assert(w.subrange(0, 4) =~= u32_bytes(hi));
    assert(s.subrange(at + 4, at + 8) =~= w.subrange(4, 8));
    assert(w.subrange(4, 8) =~= u32_bytes(lo));
    u32_round_trip(s, at, hi);
    u32_round_trip(s, at + 4, lo);
}

/// Reading eight bytes gives back the `i64` whose bytes were written there.
pub proof fn i64_round_trip(s: Seq<u8>, at: int, v: i64)
    requires
        0 <= at,
        at + 8 <= s.len(),
        s.subrange(at, at + 8) == i64_bytes(v),
    ensures
        be_i64(s, at) == v,
{
    u64_round_trip(s, at, unsigned(v));
}

/// Four bytes are the bytes of the `u32` that they read as.
pub proof fn u32_bytes_of_read(s: Seq<u8>, at: int)
    requires
        0 <= at,
        at + 4 <= s.len(),
    ensures
        u32_bytes(be_u32(s, at)) == s.subrange(at, at + 4),
{
    let v = be_u32(s, at);
    let a = s[at] as int;
    let b = s[at + 1] as int;
    let c = s[at + 2] as int;
    let d = s[at + 3] as int;
    assert(v == a * 0x100_0000 + b * 0x1_0000 + c * 0x100 + d);
    assert(v as int / 0x100_0000 == a);
    assert(v as int / 0x1_0000 == a * 0x100 + b);
    assert(v as int / 0x100 == a * 0x1_0000 + b * 0x100 + c);
    assert(u32_bytes(v) =~= s.subrange(at, at + 4));
}

/// Eight bytes are the bytes of the `u64` that they read as.
pub proof fn u64_bytes_of_read(s: Seq<u8>, at: int)
    requires
        0 <= at,
        at + 8 <= s.len(),
    ensures
        u64_bytes(be_u64(s, at)) == s.subrange(at, at + 8),
{
    let hi = be_u32(s, at);
    let lo = be_u32(s, at + 4);
    let v = be_u64(s, at);
    assert(v == hi * 0x1_0000_0000 + lo);
    assert((v / 0x1_0000_0000) as u32 == hi);
    assert((v % 0x1_0000_0000) as u32 == lo);
    u32_bytes_of_read(s, at);
    u32_bytes_of_read(s, at + 4);
    assert(s.subrange(at, at + 8) =~= s.subrange(at, at + 4) + s.subrange(at + 4, at + 8));
}

/// Read `len` bytes starting at `at` into an owned `Vec<u8>`.
pub fn read_vec(buf: &[u8], at: usize, len: usize) -> (r: Result<Vec<u8>, PinaxError>)
    ensures
        match r {
            Ok(v) => at + len <= buf@.len() && v@ == buf@.subrange(at as int, at + len),
            Err(e) => at + len > buf@.len() && e == error::bounds_error(
                at as int,
                len as int,
                buf@.len() as int,
            ),
        },
{
    let buf_len: usize = buf.len();
    if at > buf_len || len > buf_len - at {
        return Err(buffer_bounds(at, len, buf_len));
    }
    Ok(vstd::slice::slice_to_vec(vstd::slice::slice_subrange(buf, at, at + len)))
}

/// Write `bytes` into `buf` starting at `at`.
pub fn write_bytes(buf: &mut [u8], at: usize, bytes: &[u8]) -> (r: Result<(), PinaxError>)
    ensures
        match r {
            Ok(()) => at + bytes@.len() <= old(buf)@.len() && final(buf)@ == patched(
                old(buf)@,
                at as int,
                bytes@,
            ),
            Err(e) => at + bytes@.len() > old(buf)@.len() && final(buf)@ == old(buf)@ && e
                == error::bounds_error(at as int, bytes@.len() as int, old(buf)@.len() as int),
        },
{
    let buf_len: usize = buf.len();
    let len: usize = bytes.len();
    if at > buf_len || len > buf_len - at {
        return Err(buffer_bounds(at, len, buf_len));
    }
    let ghost before = buf@;
    let mut i: usize = 0;
    while i < len
        invariant
            i <= len,
            len == bytes@.len(),
            buf_len == before.len(),
            at + len <= buf_len,
            buf@.len() == buf_len,
            buf@ == patched(before, at as int, bytes@.subrange(0, i as int)),
        decreases len - i,
    {
        buf[at + i] = bytes[i];
        i = i + 1;
        assert(buf@ =~= patched(before, at as int, bytes@.subrange(0, i as int)));
    }
    assert(bytes@.subrange(0, len as int) =~= bytes@);
    assert(buf@ =~= patched(before, at as int, bytes@));
    Ok(())
}

/// Read `N` bytes at `at`.
pub fn read_bytes<const N: usize>(buf: &[u8], at: usize) -> (r: Result<[u8; N], PinaxError>)
    ensures
        match r {
            Ok(v) => at + N <= buf@.len() && v@ == buf@.subrange(at as int, at + N),
            Err(e) => at + N > buf@.len() && e == error::bounds_error(
                at as int,
                N as int,
                buf@.len() as int,
            ),
        },
{
    let buf_len: usize = buf.len();
    if at > buf_len || N > buf_len - at {
        return Err(buffer_bounds(at, N, buf_len));
    }
    let mut out: [u8; N] = [0u8; N];
    let mut i: usize = 0;
    while i < N
        invariant
            i <= N,
            buf_len == buf@.len(),
            at + N <= buf_len,
            forall|j: int| 0 <= j < i ==> out@[j] == buf@[at + j],
        decreases N - i,
    {
        out[i] = buf[at + i];
        i = i + 1;
    }
    assert(out@ =~= buf@.subrange(at as int, at + N));
    Ok(out)
}

/// Read the `u8` at `at`.
pub fn read_u8(buf: &[u8], at: usize) -> (r: Result<u8, PinaxError>)
    ensures
        match r {
            Ok(v) => at < buf@.len() && v == buf@[at as int],
            Err(e) => at >= buf@.len() && e == error::bounds_error(
                at as int,
                1,
                buf@.len() as int,
            ),
        },
{
    match read_bytes::<1>(buf, at) {
        Ok(b) => {
            assert(b@[0] == buf@[at as int]);
            Ok(b[0])
        },
        Err(e) => Err(e),
    }
}

/// Read the big-endian `u16` at `at`.
pub fn read_u16(buf: &[u8], at: usize) -> (r: Result<u16, PinaxError>)
    ensures
        match r {
            Ok(v) => at + 2 <= buf@.len() && v == be_u16(buf@, at as int),
            Err(e) => at + 2 > buf@.len() && e == error::bounds_error(
                at as int,
                2,
                buf@.len() as int,
            ),
        },
{
    match read_bytes::<2>(buf, at) {
        Ok(b) => {
            assert(b@[0] == buf@[at as int] && b@[1] == buf@[at + 1]);
            Ok(b[0] as u16 * 0x100 + b[1] as u16)
        },
        Err(e) => Err(e),
    }
}

/// Read the big-endian `u32` at `at`.
pub fn read_u32(buf: &[u8], at: usize) -> (r: Result<u32, PinaxError>)
    ensures
        match r {
            Ok(v) => at + 4 <= buf@.len() && v == be_u32(buf@, at as int),
            Err(e) => at + 4 > buf@.len() && e == error::bounds_error(
                at as int,
                4,
                buf@.len() as int,
            ),
        },
{
    match read_bytes::<4>(buf, at) {
        Ok(b) => {
            assert(b@[0] == buf@[at as int] && b@[1] == buf@[at + 1] && b@[2] == buf@[at + 2]
                && b@[3] == buf@[at + 3]);
            Ok(
                b[0] as u32 * 0x100_0000 + b[1] as u32 * 0x1_0000 + b[2] as u32 * 0x100
                    + b[3] as u32,
            )
        },
        Err(e) => Err(e),
    }
}

/// Read the big-endian `u64` at `at`.
pub fn read_u64(buf: &[u8], at: usize) -> (r: Result<u64, PinaxError>)
    ensures
        match r {
            Ok(v) => at + 8 <= buf@.len() && v == be_u64(buf@, at as int),
            Err(e) => at + 8 > buf@.len() && e == error::bounds_error(
                at as int,
                8,
                buf@.len() as int,
            ),
        },
{
    let buf_len: usize = buf.len();
    if at > buf_len || 8 > buf_len - at {
        return Err(buffer_bounds(at, 8, buf_len));
    }
    let hi: u32 = match read_u32(buf, at) {
        Ok(v) => v,
        Err(e) => return Err(e),
    };
    let lo: u32 = match read_u32(buf, at + 4) {
        Ok(v) => v,
        Err(e) => return Err(e),
    };
    Ok(hi as u64 * 0x1_0000_0000 + lo as u64)
}

/// The number whose two's complement is `u`.
fn to_signed(u: u64) -> (v: i64)
    ensures
        v == signed(u),
{
    if u < 0x8000_0000_0000_0000 {
        u as i64
    } else {
        (u as i128 - 0x1_0000_0000_0000_0000) as i64
    }
}

/// The two's complement of `v`.
fn to_unsigned(v: i64) -> (u: u64)
    ensures
        u == unsigned(v),
{
    if v >= 0 {
        v as u64
    } else {
        (v as i128 + 0x1_0000_0000_0000_0000) as u64
    }
}

/// Read the big-endian two's complement `i64` at `at`.
pub fn read_i64(buf: &[u8], at: usize) -> (r: Result<i64, PinaxError>)
    ensures
        match r {
            Ok(v) => at + 8 <= buf@.len() && v == be_i64(buf@, at as int),
            Err(e) => at + 8 > buf@.len() && e == error::bounds_error(
                at as int,
                8,
                buf@.len() as int,
            ),
        },
{
    match read_u64(buf, at) {
        Ok(u) => Ok(to_signed(u)),
        Err(e) => Err(e),
    }
}

/// The big-endian bytes of a `u16`.
pub fn u16_to_bytes(value: u16) -> (b: [u8; 2])
    ensures
        b@ == u16_bytes(value),
{
    let b: [u8; 2] = [(value / 0x100) as u8, (value % 0x100) as u8];
    assert(b@ =~= u16_bytes(value));
    b
}

/// The big-endian bytes of a `u32`.
pub fn u32_to_bytes(value: u32) -> (b: [u8; 4])
    ensures
        b@ == u32_bytes(value),
{
    let b: [u8; 4] = [
        (value / 0x100_0000) as u8,
        (value / 0x1_0000 % 0x100) as u8,
        (value / 0x100 % 0x100) as u8,
        (value % 0x100) as u8,
    ];
    assert(b@ =~= u32_bytes(value));
    b
}

/// The big-endian bytes of a `u64`.
pub fn u64_to_bytes(value: u64) -> (b: [u8; 8])
    ensures
        b@ == u64_bytes(value),
{
    let hi = u32_to_bytes((value / 0x1_0000_0000) as u32);
    let lo = u32_to_bytes((value % 0x1_0000_0000) as u32);
    let b: [u8; 8] = [hi[0], hi[1], hi[2], hi[3], lo[0], lo[1], lo[2], lo[3]];
    assert(b@ =~= u64_bytes(value));
    b
}

/// The big-endian two's complement bytes of an `i64`.
pub fn i64_to_bytes(value: i64) -> (b: [u8; 8])
    ensures
        b@ == i64_bytes(value),
{
    u64_to_bytes(to_unsigned(value))
}

/// Write the `u8` at `at`.
pub fn write_u8(buf: &mut [u8], at: usize, value: u8) -> (r: Result<(), PinaxError>)
    ensures
        match r {
            Ok(()) => at < old(buf)@.len() && final(buf)@ == old(buf)@.update(at as int, value),
            Err(e) => at >= old(buf)@.len() && final(buf)@ == old(buf)@ && e
                == error::bounds_error(at as int, 1, old(buf)@.len() as int),
        },
{
    let b: [u8; 1] = [value];
    write_bytes(buf, at, &b)
}

/// Write a big-endian `u16` at `at`.
pub fn write_u16(buf: &mut [u8], at: usize, value: u16) -> (r: Result<(), PinaxError>)
    ensures
        match r {
            Ok(()) => at + 2 <= old(buf)@.len() && final(buf)@ == patched(
                old(buf)@,
                at as int,
                u16_bytes(value),
            ),
            Err(e) => at + 2 > old(buf)@.len() && final(buf)@ == old(buf)@ && e
                == error::bounds_error(at as int, 2, old(buf)@.len() as int),
        },
{
    let b = u16_to_bytes(value);
    write_bytes(buf, at, &b)
}

/// Write a big-endian `u32` at `at`.
pub fn write_u32(buf: &mut [u8], at: usize, value: u32) -> (r: Result<(), PinaxError>)
    ensures
        match r {
            Ok(()) => at + 4 <= old(buf)@.len() && final(buf)@ == patched(
                old(buf)@,
                at as int,
                u32_bytes(value),
            ),
            Err(e) => at + 4 > old(buf)@.len() && final(buf)@ == old(buf)@ && e
                == error::bounds_error(at as int, 4, old(buf)@.len() as int),
        },
{
    let b = u32_to_bytes(value);
    write_bytes(buf, at, &b)
}

/// Write a big-endian `u64` at `at`.
pub fn write_u64(buf: &mut [u8], at: usize, value: u64) -> (r: Result<(), PinaxError>)
    ensures
        match r {
            Ok(()) => at + 8 <= old(buf)@.len() && final(buf)@ == patched(
                old(buf)@,
                at as int,
                u64_bytes(value),
            ),
            Err(e) => at + 8 > old(buf)@.len() && final(buf)@ == old(buf)@ && e
                == error::bounds_error(at as int, 8, old(buf)@.len() as int),
        },
{
    let b = u64_to_bytes(value);
    write_bytes(buf, at, &b)
}

} // verus!
