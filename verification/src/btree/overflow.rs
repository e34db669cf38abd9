//! Overflow chains: writing the part of a payload that its cell does not
//! keep local, and putting a payload together again.

use vstd::prelude::*;

use crate::btree::layout;
use crate::btree::layout::{build_leaf_cell, LeafCell};
use crate::btree::tree;
use crate::buffer_pool;
use crate::buffer_pool::BufferPool;
use crate::codec;
use crate::codec::{read_u32, read_vec, write_bytes, write_u32, write_u8};
use crate::error;
use crate::error::PinaxError;
use crate::lexis::value::ValueView;
use crate::page;
use crate::page::PAGE_TYPE_OVERFLOW;
use crate::pager::Pager;
use crate::row;
use crate::row::Row;

verus! {

/// The payload bytes that one overflow page holds.
pub open spec fn chunk_cap(size: int) -> int {
    size - page::CHECKSUM_LEN - 5
}

/// How many overflow pages `len` payload bytes take.
pub open spec fn chunk_count(len: nat, cap: int) -> nat
    decreases len,
{
    if len == 0 || cap <= 0 {
        0
    } else if len <= cap {
        1
    } else {
        1 + chunk_count((len - cap) as nat, cap)
    }
}

/// How many of `len` payload bytes are on the last overflow page.
pub open spec fn last_chunk(len: nat, cap: int) -> nat
    decreases len,
{
    if cap <= 0 || len <= cap {
        len
    } else {
        last_chunk((len - cap) as nat, cap)
    }
}

/// The page's body is zero from `at` on.
pub open spec fn zero_from(c: Seq<u8>, at: int) -> bool {
    forall|k: int| at <= k < c.len() ==> #[trigger] c[k] == 0
}

/// The bytes of a payload that overflow on pages of `size` bytes.
pub open spec fn spilled(len: nat, size: int) -> nat {
    if len > page::max_local_of(size) {
        (len - page::max_local_of(size)) as nat
    } else {
        0
    }
}

/// The payload bytes that one overflow page holds.
pub fn overflow_chunk_cap(page_size_bytes: u32) -> (n: usize)
    requires
        page::valid_page_size(page_size_bytes as int),
    ensures
        n == chunk_cap(page_size_bytes as int),
{
    (page_size_bytes - 8) as usize - 5
}

/// How many overflow pages a payload of `len` bytes takes on pages of `size`
/// bytes.
pub fn overflow_pages(len: usize, page_size: page::PageSize) -> (n: usize)
    requires
        page_size.wf(),
    ensures
        n == chunk_count(spilled(len as nat, page_size.size()), chunk_cap(page_size.size())),
        n <= len,
{
    let max_local: usize = page_size.max_local() as usize;
    if len <= max_local {
        return 0;
    }
    let cap: usize = overflow_chunk_cap(page_size.bytes());
    let total: usize = len - max_local;
    let mut rest: usize = total;
    let mut n: usize = 1;
    while rest > cap
        invariant
            0 < cap,
            0 < rest <= total,
            n + rest <= total + 1,
            chunk_count(total as nat, cap as int) == n - 1 + chunk_count(rest as nat, cap as int),
        decreases rest,
    {
        rest = rest - cap;
        n = n + 1;
    }
    n
}

/// Put `tail` into overflow pages, and return the id of the first; of an
/// empty tail, 0. Every page but the last is full. The pages are put from
/// the last to the first, so that each can name the next.
pub fn write_overflow_chain(pool: &mut BufferPool, tail: &[u8]) -> (r: Result<u32, PinaxError>)
    requires
        old(pool).wf(),
        old(pool)@.next_id + chunk_count(tail@.len(), chunk_cap(old(pool)@.meta.size)) <= u32::MAX,
    ensures
        final(pool).wf(),
        buffer_pool::grown(old(pool)@, final(pool)@),
        final(pool)@.next_id == old(pool)@.next_id + chunk_count(
            tail@.len(),
            chunk_cap(old(pool)@.meta.size),
        ),
        r matches Ok(first) && {
            let cap = chunk_cap(old(pool)@.meta.size);
            &&& tail@.len() == 0 ==> first == 0
            &&& tail@.len() > 0 ==> first == final(pool)@.next_id - 1
            &&& old(pool)@.next_id >= page::FIRST_DATA_PAGE_ID ==> tree::chain_ok(
                final(pool)@.log,
                first,
                tail@.len(),
                final(pool)@.next_id as int,
                cap,
            ) && tree::chain_data(final(pool)@.log, first, tail@.len(), cap) == tail@
        },
        tail@.len() > 0 ==> final(pool)@.log.contains_key(old(pool)@.next_id) && zero_from(
            final(pool)@.log[old(pool)@.next_id],
            5 + last_chunk(tail@.len(), chunk_cap(old(pool)@.meta.size)) as int,
        ),
{
    let ghost v = pool@;
    proof {
        pool.wf_facts();
        buffer_pool::grown_refl(v);
    }
    let len: usize = tail.len();
    if len == 0 {
        assert(tail@ =~= Seq::<u8>::empty());
        return Ok(0);
    }
    let cap: usize = overflow_chunk_cap(pool.page_size().bytes());
    let page_len: usize = pool.page_size().bytes_usize();
    let mut start: usize = 0;
    let ghost mut k: nat = 0;
    while len - start > cap
        invariant
            start < len,
            0 < cap,
            start == k * cap,
            chunk_count(len as nat, cap as int) == k + chunk_count(
                (len - start) as nat,
                cap as int,
            ),
            last_chunk(len as nat, cap as int) == last_chunk((len - start) as nat, cap as int),
        decreases len - start,
    {
        proof {
            assert((k + 1) * cap == k * cap + cap) by (nonlinear_arith);
            k = k + 1;
        }
        start = start + cap;
    }
    let mut end: usize = len;
    let mut next_id: u32 = 0;
    let mut more: bool = true;
    assert(tail@.subrange(len as int, len as int) =~= Seq::<u8>::empty());
    while more
        invariant
            pool.wf(),
            buffer_pool::grown(v, pool@),
            v.next_id + chunk_count(len as nat, cap as int) <= u32::MAX,
            page_len == v.meta.size,
            cap == chunk_cap(v.meta.size),
            page::valid_page_size(v.meta.size),
            len == tail@.len(),
            0 < len,
            end <= len,
            end == len ==> next_id == 0,
            0 < cap,
            more ==> start < end && start == k * cap && pool@.next_id + k + 1 == v.next_id
                + chunk_count(len as nat, cap as int) && end - start <= cap && (end < len ==> end
                - start == cap),
            !more ==> end == 0 && pool@.next_id == v.next_id + chunk_count(len as nat, cap as int)
                && next_id == pool@.next_id - 1,
            v.next_id >= page::FIRST_DATA_PAGE_ID ==> tree::chain_ok(
                pool@.log,
                next_id,
                (len - end) as nat,
                pool@.next_id as int,
                cap as int,
            ) && tree::chain_data(pool@.log, next_id, (len - end) as nat, cap as int)
                == tail@.subrange(end as int, len as int),
            end == len ==> pool@ == v && end - start == last_chunk(len as nat, cap as int),
            end < len ==> v.next_id < pool@.next_id && pool@.log.contains_key(v.next_id)
                && zero_from(
                pool@.log[v.next_id],
                5 + last_chunk(len as nat, cap as int) as int,
            ),
        decreases end,
    {
        let ghost before = pool@;
        let ghost old_end = end as int;
        let chunk = vstd::slice::slice_subrange(tail, start, end);
        let mut buf: Vec<u8> = vec![0u8; page_len];
        write_u8(&mut buf, 0, PAGE_TYPE_OVERFLOW)?;
        write_u32(&mut buf, 1, next_id)?;
        write_bytes(&mut buf, 5, chunk)?;
        let ghost content = page::body(buf@);
        let id: u32 = pool.put_page(buf)?;
        proof {
            buffer_pool::grown_trans(v, before, pool@);
            let log = pool@.log;
            let rest = (len - old_end) as nat;
            let all = (len - start) as nat;
            assert(content.len() == cap + 5);
            assert(content.subrange(5, 5 + chunk@.len() as int) =~= chunk@);
            assert(zero_from(content, 5 + chunk@.len() as int));
            assert(log == before.log.insert(id, content));
            assert(content.subrange(1, 5) =~= codec::u32_bytes(next_id));
            codec::u32_round_trip(content, 1, next_id);
            if v.next_id >= page::FIRST_DATA_PAGE_ID {
                tree::chain_grows(
                    before.log,
                    log,
                    next_id,
                    rest,
                    before.next_id as int,
                    before.next_id as int,
                    cap as int,
                );
                assert(log[id] == content);
                if old_end < len {
                    assert(all - cap == rest);
                } else {
                    assert(all <= cap);
                }
                assert(tree::chain_ok(log, id, all, pool@.next_id as int, cap as int));
                assert(tree::chain_data(log, id, all, cap as int) =~= tail@.subrange(
                    start as int,
                    len as int,
                ));
            }
        }
        next_id = id;
        end = start;
        if start == 0 {
            assert(k == 0) by (nonlinear_arith)
                requires
                    0 == k * cap,
                    0 < cap,
            ;
            more = false;
        } else {
            proof {
                assert(k > 0) by (nonlinear_arith)
                    requires
                        0 < k * cap,
                        0 < cap,
                ;
                assert((k - 1) * cap == k * cap - cap) by (nonlinear_arith);
                assert(0 <= (k - 1) * cap) by (nonlinear_arith)
                    requires
                        k > 0,
                        0 < cap,
                ;
                k = (k - 1) as nat;
            }
            start = start - cap;
        }
    }
    assert(tail@.subrange(0, len as int) =~= tail@);
    Ok(next_id)
}

/// Part a payload into the bytes that its cell keeps local and the first
/// page of an overflow chain that holds the others (0 if there are none).
pub fn spill_if_needed(pool: &mut BufferPool, encoded: &[u8]) -> (r: Result<
    (Vec<u8>, u32),
    PinaxError,
>)
    requires
        old(pool).wf(),
        old(pool)@.next_id + chunk_count(
            spilled(encoded@.len(), old(pool)@.meta.size),
            chunk_cap(old(pool)@.meta.size),
        ) <= u32::MAX,
    ensures
        final(pool).wf(),
        buffer_pool::grown(old(pool)@, final(pool)@),
        final(pool)@.next_id == old(pool)@.next_id + chunk_count(
            spilled(encoded@.len(), old(pool)@.meta.size),
            chunk_cap(old(pool)@.meta.size),
        ),
        r matches Ok((local, first)) && {
            let size = old(pool)@.meta.size;
            let ml = page::max_local_of(size);
            let tail = spilled(encoded@.len(), size);
            &&& local@ == encoded@.subrange(0, layout::local_len(encoded@.len() as int, ml))
            &&& tail == 0 ==> first == 0
            &&& tail > 0 ==> first == final(pool)@.next_id - 1
            &&& old(pool)@.next_id >= page::FIRST_DATA_PAGE_ID ==> tree::chain_ok(
                final(pool)@.log,
                first,
                tail,
                final(pool)@.next_id as int,
                chunk_cap(size),
            ) && local@ + tree::chain_data(final(pool)@.log, first, tail, chunk_cap(size))
                == encoded@
        },
{
    proof {
        pool.wf_facts();
        buffer_pool::grown_refl(pool@);
    }
    let len: usize = encoded.len();
    let max_local: usize = pool.page_size().max_local() as usize;
    if len <= max_local {
        let local = vstd::slice::slice_to_vec(encoded);
        assert(encoded@.subrange(0, len as int) =~= encoded@);
        assert(local@ + Seq::<u8>::empty() =~= encoded@);
        return Ok((local, 0));
    }
    let local = vstd::slice::slice_to_vec(vstd::slice::slice_subrange(encoded, 0, max_local));
    let tail = vstd::slice::slice_subrange(encoded, max_local, len);
    let first: u32 = write_overflow_chain(pool, tail)?;
    assert(local@ + tail@ =~= encoded@);
    Ok((local, first))
}

/// The encoding of a row is too long for a 32-bit length.
pub open spec fn row_too_large(vs: Seq<ValueView>) -> Option<nat> {
    match row::oversize(vs) {
        Some(n) => Some(n),
        None => if row::row_bytes(vs).len() > u32::MAX {
            Some(row::row_bytes(vs).len())
        } else {
            None
        },
    }
}

/// Encode a row that is to be stored under `key`. A row whose lengths, or
/// whose whole encoding, do not fit 32 bits is refused.
pub fn encode_row(key: i64, row: &Row) -> (r: Result<Vec<u8>, PinaxError>)
    ensures
        match r {
            Ok(buf) => row_too_large(row@) is None && buf@ == row::row_bytes(row@) && buf@.len()
                <= u32::MAX,
            Err(e) => row_too_large(row@) is Some && e == row::too_large(
                key,
                row_too_large(row@)->0 as int,
            ),
        },
{
    let buf = row.encode(key)?;
    if buf.len() as u64 > 0xFFFF_FFFF {
        return Err(
            PinaxError::Permanent {
                source: error::PermanentError::PayloadTooLarge { key, encoded_len: buf.len() },
            },
        );
    }
    Ok(buf)
}

proof fn built_cell_wf(key: i64, payload_len: u32, first: u32, local: Seq<u8>, usable: int)
    requires
        local.len() == layout::local_len(payload_len as int, usable - 35),
    ensures
        layout::cell_wf(layout::leaf_cell_bytes(key, payload_len, first, local), usable - 35),
        layout::cell_key(layout::leaf_cell_bytes(key, payload_len, first, local)) == key,
{
    layout::leaf_cell_round_trip(key, payload_len, first, local);
}

/// The cell that is built of a payload holds the payload.
proof fn built_cell_ok(
    log: tree::Pages,
    key: i64,
    payload_len: u32,
    first: u32,
    local: Seq<u8>,
    encoded: Seq<u8>,
    usable: int,
    below: int,
)
    requires
        payload_len == encoded.len(),
        35 < usable,
        local == encoded.subrange(0, layout::local_len(encoded.len() as int, usable - 35)),
        first == 0 <==> payload_len <= usable - 35,
        ({
            let tail = if payload_len > usable - 35 {
                (payload_len - (usable - 35)) as nat
            } else {
                0
            };
            &&& tree::chain_ok(log, first, tail, below, usable - 5)
            &&& local + tree::chain_data(log, first, tail, usable - 5) == encoded
        }),
    ensures
        tree::cell_ok(
            log,
            layout::leaf_cell_bytes(key, payload_len, first, local),
            below,
            usable,
        ),
        tree::cell_payload(log, layout::leaf_cell_bytes(key, payload_len, first, local), usable)
            == encoded,
{
    let cell = layout::leaf_cell_bytes(key, payload_len, first, local);
    layout::leaf_cell_round_trip(key, payload_len, first, local);
    if first == 0 {
        assert(local =~= encoded);
    }
}

/// Build the leaf cell of an encoded row, with its overflow chain if it
/// needs one.
pub fn build_row_cell(pool: &mut BufferPool, key: i64, encoded: &[u8]) -> (r: Result<
    Vec<u8>,
    PinaxError,
>)
    requires
        old(pool).wf(),
        encoded@.len() <= u32::MAX,
        old(pool)@.next_id + chunk_count(
            spilled(encoded@.len(), old(pool)@.meta.size),
            chunk_cap(old(pool)@.meta.size),
        ) <= u32::MAX,
    ensures
        final(pool).wf(),
        buffer_pool::grown(old(pool)@, final(pool)@),
        final(pool)@.next_id == old(pool)@.next_id + chunk_count(
            spilled(encoded@.len(), old(pool)@.meta.size),
            chunk_cap(old(pool)@.meta.size),
        ),
        r matches Ok(cell) && {
            let size = old(pool)@.meta.size;
            let usable = size - page::CHECKSUM_LEN;
            &&& layout::cell_wf(cell@, usable - 35)
            &&& layout::cell_key(cell@) == key
            &&& old(pool)@.next_id >= page::FIRST_DATA_PAGE_ID ==> tree::cell_ok(
                final(pool)@.log,
                cell@,
                final(pool)@.next_id as int,
                usable,
            ) && tree::cell_payload(final(pool)@.log, cell@, usable) == encoded@
        },
{
    let ghost v = pool@;
    proof {
        pool.wf_facts();
    }
    let (local, first) = spill_if_needed(pool, encoded)?;
    let payload_len: u32 = encoded.len() as u32;
    let cell = build_leaf_cell(key, payload_len, first, local.as_slice());
    proof {
        let usable = v.meta.size - page::CHECKSUM_LEN;
        built_cell_wf(key, payload_len, first, local@, usable);
        if v.next_id >= page::FIRST_DATA_PAGE_ID {
            built_cell_ok(
                pool@.log,
                key,
                payload_len,
                first,
                local@,
                encoded@,
                usable,
                pool@.next_id as int,
            );
        }
    }
    Ok(cell)
}

/// A payload that is being put together, page by page of its overflow chain.
pub struct Reassembly {
    /// The bytes so far.
    pub full: Vec<u8>,
    /// The next page of the chain, or 0.
    pub next: u32,
    /// How many bytes the chain still owes.
    pub remaining: usize,
}

impl Reassembly {
    /// Begin with the bytes that the cell keeps local.
    pub fn start(cell: LeafCell, max_local: u32) -> (r: Self)
        ensures
            r.full@ == cell.local@,
            r.next == cell.overflow_first,
            r.remaining == (if cell.overflow_first != 0 && cell.payload_len > max_local {
                cell.payload_len - max_local
            } else {
                0
            }),
    {
        let remaining: usize = if cell.overflow_first != 0 && cell.payload_len > max_local {
            (cell.payload_len - max_local) as usize
        } else {
            0
        };
        Reassembly { full: cell.local, next: cell.overflow_first, remaining }
    }

    /// The page that is needed next; `None` when the payload is complete.
    pub fn needs(&self) -> (r: Option<u32>)
        ensures
            r == self.wants(),
    {
        if self.next != 0 && self.remaining > 0 {
            Some(self.next)
        } else {
            None
        }
    }

    /// The page that is needed next; `None` when the payload is complete.
    pub open spec fn wants(self) -> Option<u32> {
        if self.next != 0 && self.remaining > 0 {
            Some(self.next)
        } else {
            None
        }
    }

    /// The payload, once the pages that are still needed are taken from
    /// `pages`.
    pub open spec fn result(self, pages: tree::Pages, cap: int) -> Seq<u8> {
        if self.next == 0 {
            self.full@
        } else {
            self.full@ + tree::chain_data(pages, self.next, self.remaining as nat, cap)
        }
    }

    /// The pages that are still needed are in `pages`, with ids below
    /// `below`.
    pub open spec fn available(self, pages: tree::Pages, below: int, cap: int) -> bool {
        &&& self.next == 0 ==> self.remaining == 0
        &&& tree::chain_ok(pages, self.next, self.remaining as nat, below, cap)
    }

    /// Take the page that was needed.
    pub fn feed(&mut self, id: u32, buf: &[u8], cap: usize) -> (r: Result<(), PinaxError>)
        requires
            old(self).wants() == Some(id),
            0 < cap,
        ensures
            match r {
                Ok(()) => {
                    let take = if old(self).remaining <= cap {
                        old(self).remaining as int
                    } else {
                        cap as int
                    };
                    &&& buf@.len() >= 5 + take
                    &&& buf@[0] == PAGE_TYPE_OVERFLOW
                    &&& final(self).full@ == old(self).full@ + buf@.subrange(5, 5 + take)
                    &&& final(self).next == codec::be_u32(buf@, 1)
                    &&& final(self).remaining == old(self).remaining - take
                },
                Err(e) => {
                    &&& *final(self) == *old(self)
                    &&& if buf@.len() > 0 && buf@[0] != PAGE_TYPE_OVERFLOW {
                        error::wrong_type(e, id, "overflow"@, buf@[0])
                    } else {
                        let take = if old(self).remaining <= cap {
                            old(self).remaining as int
                        } else {
                            cap as int
                        };
                        &&& buf@.len() < 5 + take
                        &&& e == (if buf@.len() == 0 {
                            error::bounds_error(0, 1, 0)
                        } else if buf@.len() < 5 {
                            error::bounds_error(1, 4, buf@.len() as int)
                        } else {
                            error::bounds_error(5, take, buf@.len() as int)
                        })
                    }
                },
            },
    {
        Pager::expect_page_type(id, buf, PAGE_TYPE_OVERFLOW, "overflow")?;
        let next: u32 = read_u32(buf, 1)?;
        let take: usize = if self.remaining <= cap {
            self.remaining
        } else {
            cap
        };
        let mut chunk = read_vec(buf, 5, take)?;
        self.full.append(&mut chunk);
        self.next = next;
        self.remaining = self.remaining - take;
        Ok(())
    }
}

// ---- what reading a chain gives ----

/// What `full` becomes when `remaining` bytes are read from page `next` on,
/// page by page, until a page names no other.
pub open spec fn read_through(
    pages: tree::Pages,
    full: Seq<u8>,
    next: u32,
    remaining: nat,
    cap: int,
) -> Seq<u8>
    decreases remaining,
{
    if next == 0 || remaining == 0 || cap <= 0 {
        full
    } else {
        let take = if remaining <= cap {
            remaining as int
        } else {
            cap
        };
        read_through(
            pages,
            full + pages[next].subrange(5, 5 + take),
            codec::be_u32(pages[next], 1),
            (remaining - take) as nat,
            cap,
        )
    }
}

impl Reassembly {
    /// What the payload becomes when the pages that are needed are taken
    /// from `pages`.
    pub open spec fn read_from(self, pages: tree::Pages, cap: int) -> Seq<u8> {
        read_through(pages, self.full@, self.next, self.remaining as nat, cap)
    }
}

/// Taking the page that is needed does not change what the payload becomes,
/// and once no page is needed, that is what there is.
pub proof fn feeding_reads_through(
    before: Reassembly,
    after: Reassembly,
    pages: tree::Pages,
    buf: Seq<u8>,
    cap: int,
)
    requires
        before.wants() is Some,
        0 < cap,
        buf.len() == cap + 5 + page::CHECKSUM_LEN,
        pages[before.next] == page::body(buf),
        ({
            let take = if before.remaining <= cap {
                before.remaining as int
            } else {
                cap
            };
            &&& after.full@ == before.full@ + buf.subrange(5, 5 + take)
            &&& after.next == codec::be_u32(buf, 1)
            &&& after.remaining == before.remaining - take
        }),
    ensures
        after.read_from(pages, cap) == before.read_from(pages, cap),
        after.wants() is None ==> after.full@ == before.read_from(pages, cap),
{
    let take = if before.remaining <= cap {
        before.remaining as int
    } else {
        cap
    };
    let c = pages[before.next];
    assert(c.subrange(5, 5 + take) =~= buf.subrange(5, 5 + take));
    assert(codec::be_u32(c, 1) == codec::be_u32(buf, 1));
}

/// Reading `n` bytes of a chain gives the first `n` of the bytes that it
/// holds, however many pages they span.
pub proof fn chain_reads_back(
    pages: tree::Pages,
    full: Seq<u8>,
    first: u32,
    len: nat,
    n: nat,
    below: int,
    cap: int,
)
    requires
        tree::chain_ok(pages, first, len, below, cap),
        n <= len,
        0 < cap,
    ensures
        tree::chain_data(pages, first, len, cap).len() == len,
        read_through(pages, full, first, n, cap) == full + tree::chain_data(
            pages,
            first,
            len,
            cap,
        ).take(n as int),
    decreases len,
{
    let data = tree::chain_data(pages, first, len, cap);
    if len == 0 {
        assert(full + data.take(0) =~= full);
    } else if len <= cap {
        let taken = pages[first].subrange(5, 5 + n as int);
        assert(data.take(n as int) =~= taken);
        let next = codec::be_u32(pages[first], 1);
        assert(read_through(pages, full + taken, next, 0, cap) == full + taken);
        if n == 0 {
            assert(full + data.take(0) =~= full);
        }
    } else {
        let next = codec::be_u32(pages[first], 1);
        let head = pages[first].subrange(5, 5 + cap);
        let rest = tree::chain_data(pages, next, (len - cap) as nat, cap);
        if n <= cap {
            chain_reads_back(pages, full, next, (len - cap) as nat, 0, first as int, cap);
            let taken = pages[first].subrange(5, 5 + n as int);
            assert(data.take(n as int) =~= taken);
            assert(read_through(pages, full + taken, next, 0, cap) == full + taken);
            if n == 0 {
                assert(full + data.take(0) =~= full);
            }
        } else {
            let m = (n - cap) as nat;
            chain_reads_back(pages, full + head, next, (len - cap) as nat, m, first as int, cap);
            assert(data.take(n as int) =~= head + rest.take(m as int));
            assert(full + head + rest.take(m as int) =~= full + data.take(n as int));
        }
    }
}

} // verus!
