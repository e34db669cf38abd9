//! Error types of the page format, the pager, the buffer pool and the
//! B+tree.
//!
//! Errors come in two tiers, so that a caller can dispatch on the outer
//! shape: `Permanent` for what the caller can correct, `Fatal` for what
//! means that the database file or an internal invariant can no longer be
//! trusted.

use vstd::prelude::*;

verus! {

/// Errors raised by the page format, the pager, the buffer pool and the
/// B+tree.
#[derive(Debug, PartialEq, Eq)]
#[non_exhaustive]
#[allow(inconsistent_fields)]
pub enum PinaxError {
    /// A caller-correctable condition: bad input, a violated precondition
    /// (key exists, key missing), a bad configuration value.
    Permanent {
        /// The specific permanent condition.
        source: PermanentError,
    },
    /// A condition after which the file, a page or the process's invariants
    /// can no longer be trusted.
    Fatal {
        /// The specific fatal condition.
        source: FatalError,
    },
}

/// Caller-correctable errors.
#[derive(Debug, PartialEq, Eq)]
#[non_exhaustive]
#[allow(inconsistent_fields)]
pub enum PermanentError {
    /// A page size outside the valid set 4096/8192/16384/32768/65536.
    InvalidPageSize {
        /// The rejected page size.
        requested: u32,
    },
    /// A buffer pool was asked for with zero capacity.
    InvalidBufferPoolCapacity,
    /// `insert` was called with a key that is already present.
    KeyAlreadyExists {
        /// The colliding key.
        key: i64,
    },
    /// `update` or `delete` was called with an absent key.
    KeyNotFound {
        /// The missing key.
        key: i64,
    },
    /// A length does not fit in the format's `u32` length fields.
    PayloadTooLarge {
        /// The row's key.
        key: i64,
        /// The length that does not fit.
        encoded_len: usize,
    },
}

/// Errors after which the database file, a page or an internal invariant can
/// no longer be trusted.
#[derive(Debug, PartialEq, Eq)]
#[non_exhaustive]
#[allow(inconsistent_fields)]
pub enum FatalError {
    /// A page's stored checksum did not match its recomputed checksum.
    Corruption {
        /// The page whose checksum did not verify.
        page_id: u32,
        /// The checksum stored in the page's trailing bytes.
        expected: u64,
        /// The checksum recomputed from the page's content.
        actual: u64,
    },
    /// Neither meta slot is usable.
    NoValidMetaPage,
    /// The database file is shorter than the meta region.
    FileTooSmall {
        /// The file's length in bytes.
        actual_len: u64,
        /// The least length that a readable file has.
        min_len: u64,
    },
    /// A byte range fell outside the buffer being read or written.
    BufferBounds {
        /// The offset at which the access started.
        at: usize,
        /// The number of bytes that the access needed.
        len: usize,
        /// The buffer's length.
        buf_len: usize,
    },
    /// A page's type byte was not the one that its position calls for.
    UnexpectedPageType {
        /// The page whose type byte was wrong.
        page_id: u32,
        /// The page type that was expected, as a label.
        expected: &'static str,
        /// The type byte that is stored on the page.
        actual: u8,
    },
    /// A row's bytes did not decode.
    InvalidRowEncoding {
        /// What failed to decode.
        reason: &'static str,
    },
    /// The buffer pool had to evict a page and had none.
    PoolInvariantViolated,
    /// The page-id or transaction counter has too few values left for the
    /// operation.
    CounterExhausted,
}

/// A [`FatalError::BufferBounds`] as a specification value.
pub open spec fn bounds_error(at: int, len: int, buf_len: int) -> PinaxError {
    PinaxError::Fatal {
        source: FatalError::BufferBounds {
            at: at as usize,
            len: len as usize,
            buf_len: buf_len as usize,
        },
    }
}

/// Whether `e` reports an access outside a buffer.
pub open spec fn is_bounds_error(e: PinaxError) -> bool {
    e matches PinaxError::Fatal { source } && source is BufferBounds
}

/// `e` says that page `page_id` should have been of the type `expected`, and
/// has the type byte `actual`.
pub open spec fn wrong_type(e: PinaxError, page_id: u32, expected: Seq<char>, actual: u8) -> bool {
    e matches PinaxError::Fatal {
        source: FatalError::UnexpectedPageType { page_id: id, expected: label, actual: byte },
    } && id == page_id && label@ == expected && byte == actual
}

/// Whether `e` reports a page of the wrong type.
pub open spec fn is_wrong_type(e: PinaxError) -> bool {
    e matches PinaxError::Fatal { source } && source is UnexpectedPageType
}

/// The error of an operation that is out of page ids or transaction numbers.
pub open spec fn exhausted() -> PinaxError {
    PinaxError::Fatal { source: FatalError::CounterExhausted }
}

/// Build a [`FatalError::CounterExhausted`].
pub fn counter_exhausted() -> (e: PinaxError)
    ensures
        e == exhausted(),
{
    PinaxError::Fatal { source: FatalError::CounterExhausted }
}

/// Build a [`FatalError::BufferBounds`].
pub fn buffer_bounds(at: usize, len: usize, buf_len: usize) -> (e: PinaxError)
    ensures
        e == bounds_error(at as int, len as int, buf_len as int),
        is_bounds_error(e),
{
    PinaxError::Fatal { source: FatalError::BufferBounds { at, len, buf_len } }
}

} // verus!
