//! Page format: size validation, layout constants, and the XxHash3-64
//! checksum.
//!
//! Every page (meta, leaf, interior, overflow) carries an 8-byte
//! XxHash3-64 checksum in its last eight bytes. What stands before the
//! checksum is the page's body.

use vstd::prelude::*;

use crate::codec;
use crate::codec::{read_u64, write_u64};
use crate::error;
use crate::error::{PermanentError, PinaxError};

verus! {

/// Trailing bytes on every page that hold the checksum.
pub const CHECKSUM_LEN: usize = 8;

/// Length of one meta slot. It does not depend on the page size: a file is
/// opened before its page size is known.
pub const META_SLOT_LEN: u64 = 4096;

/// Length of the meta region: the two meta slots.
pub const META_REGION_LEN: u64 = 8192;

/// The first id that a data page can have. Ids 0 and 1 name the meta slots.
pub const FIRST_DATA_PAGE_ID: u32 = 2;

/// The root page id of a tree without pages.
pub const EMPTY_TREE_ROOT: u32 = 0;

/// Type byte of a leaf page.
pub const PAGE_TYPE_LEAF: u8 = 1;

/// Type byte of an interior page.
pub const PAGE_TYPE_INTERIOR: u8 = 2;

/// Type byte of an overflow page.
pub const PAGE_TYPE_OVERFLOW: u8 = 3;

/// The page sizes that a database can have.
pub open spec fn valid_page_size(n: int) -> bool {
    n == 4096 || n == 8192 || n == 16384 || n == 32768 || n == 65536
}

/// A page size: one of 4096, 8192, 16384, 32768 and 65536 bytes.
#[derive(Debug, Clone, Copy, PartialEq, Eq, Structural)]
pub struct PageSize {
    bytes: u32,
}

impl PageSize {
    /// The page size in bytes.
    pub closed spec fn size(self) -> int {
        self.bytes as int
    }

    /// The size is a valid one.
    pub open spec fn wf(self) -> bool {
        valid_page_size(self.size())
    }

    /// The page size in bytes.
    #[must_use]
    pub fn bytes(self) -> (n: u32)
        ensures
            n == self.size(),
    {
        self.bytes
    }

    /// The page size in bytes, for indexing buffers.
    #[must_use]
    pub fn bytes_usize(self) -> (n: usize)
        ensures
            n == self.size(),
    {
        self.bytes as usize
    }

    /// The bytes of a page that its checksum leaves.
    #[must_use]
    pub fn usable_space(self) -> (n: u32)
        requires
            self.wf(),
        ensures
            n == self.size() - CHECKSUM_LEN,
    {
        self.bytes - 8
    }

    /// The most payload bytes that a leaf cell keeps on its own page; the
    /// rest of a longer payload goes to an overflow chain.
    #[must_use]
    pub fn max_local(self) -> (n: u32)
        requires
            self.wf(),
        ensures
            n == max_local_of(self.size()),
    {
        self.usable_space() - 35
    }
}

/// The most payload bytes that a leaf cell of a page of `size` bytes keeps
/// local.
pub open spec fn max_local_of(size: int) -> int {
    size - CHECKSUM_LEN - 35
}

/// The error that rejects a page size.
pub open spec fn invalid_page_size(requested: u32) -> PinaxError {
    PinaxError::Permanent { source: PermanentError::InvalidPageSize { requested } }
}

impl TryFrom<u32> for PageSize {
    type Error = PinaxError;

    fn try_from(value: u32) -> (r: Result<Self, PinaxError>)
        ensures
            match r {
                Ok(p) => valid_page_size(value as int) && p.size() == value && p.wf(),
                Err(e) => !valid_page_size(value as int) && e == invalid_page_size(value),
            },
    {
        if value == 4096 || value == 8192 || value == 16384 || value == 32768 || value == 65536 {
            Ok(PageSize { bytes: value })
        } else {
            Err(PinaxError::Permanent { source: PermanentError::InvalidPageSize { requested: value } })
        }
    }
}

impl vstd::std_specs::convert::TryFromSpecImpl<u32> for PageSize {
    open spec fn obeys_try_from_spec() -> bool {
        true
    }

    closed spec fn try_from_spec(value: u32) -> Result<Self, PinaxError> {
        if valid_page_size(value as int) {
            Ok(PageSize { bytes: value })
        } else {
            Err(invalid_page_size(value))
        }
    }
}

impl Default for PageSize {
    fn default() -> (p: Self)
        ensures
            p.size() == 4096,
            p.wf(),
    {
        PageSize { bytes: 4096 }
    }
}

/// What `xxhash_rust::xxh3::xxh3_64` returns for `content`.
pub uninterp spec fn xxh3_64_of(content: Seq<u8>) -> u64;

/// Calls `xxhash_rust::xxh3::xxh3_64`, the XxHash3 64-bit hash with seed
/// zero: a function of the bytes that it is given. Nothing is claimed of the
/// value beyond that.
#[verifier::external_body]
fn xxh3(content: &[u8]) -> (h: u64)
    ensures
        h == xxh3_64_of(content@),
{
    xxhash_rust::xxh3::xxh3_64(content)
}

/// A page's body: its bytes without the checksum.
pub open spec fn body(b: Seq<u8>) -> Seq<u8> {
    if b.len() >= CHECKSUM_LEN {
        b.subrange(0, b.len() - CHECKSUM_LEN)
    } else {
        Seq::empty()
    }
}

/// The checksum that a page with the bytes `b` ought to carry.
pub open spec fn checksum_of(b: Seq<u8>) -> u64 {
    xxh3_64_of(body(b))
}

/// The checksum that a page with the bytes `b` carries.
pub open spec fn stored_checksum(b: Seq<u8>) -> u64 {
    if b.len() >= CHECKSUM_LEN {
        codec::be_u64(b, b.len() - CHECKSUM_LEN)
    } else {
        0
    }
}

/// The page with the given body and checksum.
pub open spec fn sealed(content: Seq<u8>, checksum: u64) -> Seq<u8> {
    content + codec::u64_bytes(checksum)
}

/// The page with the given body and its own checksum.
pub open spec fn stamped(content: Seq<u8>) -> Seq<u8> {
    sealed(content, xxh3_64_of(content))
}

/// The page carries the checksum of its body.
pub open spec fn checksum_ok(b: Seq<u8>) -> bool {
    stored_checksum(b) == checksum_of(b)
}

/// A stamped page keeps its body and carries the checksum of it.
pub proof fn stamped_page_verifies(content: Seq<u8>)
    ensures
        body(stamped(content)) == content,
        stored_checksum(stamped(content)) == xxh3_64_of(content),
        checksum_ok(stamped(content)),
{
    let sum = xxh3_64_of(content);
    let b = stamped(content);
    assert(body(b) =~= content);
    assert(b.subrange(content.len() as int, content.len() as int + 8) =~= codec::u64_bytes(sum));
    codec::u64_round_trip(b, content.len() as int, sum);
}

/// A page that carries its checksum is the stamped page of its body.
pub proof fn verified_page_is_stamped(b: Seq<u8>)
    requires
        b.len() >= CHECKSUM_LEN,
        checksum_ok(b),
    ensures
        b == stamped(body(b)),
{
    let at = b.len() - CHECKSUM_LEN;
    codec::u64_bytes_of_read(b, at);
    assert(b =~= body(b) + b.subrange(at, at + 8));
}

/// The checksum of a page's body.
pub fn compute_checksum(buf: &[u8]) -> (h: u64)
    ensures
        h == checksum_of(buf@),
{
    let len: usize = buf.len();
    let content_len: usize = if len >= CHECKSUM_LEN {
        len - CHECKSUM_LEN
    } else {
        0
    };
    let content = vstd::slice::slice_subrange(buf, 0, content_len);
    assert(content@ =~= body(buf@));
    xxh3(content)
}

/// Write `checksum` into the page's last eight bytes.
pub fn stamp_with(buf: &mut [u8], checksum: u64) -> (r: Result<(), PinaxError>)
    ensures
        match r {
            Ok(()) => old(buf)@.len() >= CHECKSUM_LEN && final(buf)@ == sealed(
                body(old(buf)@),
                checksum,
            ),
            Err(e) => old(buf)@.len() < CHECKSUM_LEN && final(buf)@ == old(buf)@ && e
                == error::bounds_error(0, 8, old(buf)@.len() as int),
        },
{
    let len: usize = buf.len();
    let at: usize = if len >= CHECKSUM_LEN {
        len - CHECKSUM_LEN
    } else {
        0
    };
    let ghost before = buf@;
    let r = write_u64(buf, at, checksum);
    assert(before.len() >= CHECKSUM_LEN ==> buf@ =~= sealed(body(before), checksum));
    r
}

/// Compute the page's checksum and write it into its last eight bytes.
pub fn stamp_checksum(buf: &mut [u8]) -> (r: Result<(), PinaxError>)
    ensures
        match r {
            Ok(()) => old(buf)@.len() >= CHECKSUM_LEN && final(buf)@ == stamped(body(old(buf)@)),
            Err(e) => old(buf)@.len() < CHECKSUM_LEN && final(buf)@ == old(buf)@ && e
                == error::bounds_error(0, 8, old(buf)@.len() as int),
        },
{
    let checksum: u64 = compute_checksum(buf);
    stamp_with(buf, checksum)
}

/// Compare the checksum that the page carries with `actual`; where they
/// differ, return both, the page's first.
pub fn verify_against(buf: &[u8], actual: u64) -> (r: Result<(), (u64, u64)>)
    ensures
        match r {
            Ok(()) => stored_checksum(buf@) == actual,
            Err(p) => stored_checksum(buf@) != actual && p.0 == stored_checksum(buf@) && p.1
                == actual,
        },
{
    let len: usize = buf.len();
    let at: usize = if len >= CHECKSUM_LEN {
        len - CHECKSUM_LEN
    } else {
        0
    };
    let expected: u64 = match read_u64(buf, at) {
        Ok(v) => v,
        Err(_) => 0,
    };
    if expected == actual {
        Ok(())
    } else {
        Err((expected, actual))
    }
}

/// Compare the checksum that the page carries with the checksum of its
/// body; where they differ, return both, the page's first.
pub fn verify_checksum(buf: &[u8]) -> (r: Result<(), (u64, u64)>)
    ensures
        match r {
            Ok(()) => checksum_ok(buf@),
            Err(p) => !checksum_ok(buf@) && p.0 == stored_checksum(buf@) && p.1 == checksum_of(
                buf@,
            ),
        },
{
    verify_against(buf, compute_checksum(buf))
}

} // verus!
