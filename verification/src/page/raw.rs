//! Raw header access for page bodies that are not slotted (B-tree nodes, hash
//! buckets), which need the shared header but define their own body. The
//! checksum convention is that of slotted pages.

use vstd::prelude::*;

use crate::bytes::{le64, le64_bytes, rd_u32, rd_u64, splice, wr_u32, wr_u64, zero_fill};
use crate::page::crc::crc32;
use crate::page::{
    checksum_ok, stamped, type_of_byte, PageType, HEADER_SIZE, OFF_CHECKSUM, OFF_EXTRA,
    OFF_PAGE_LSN, OFF_TYPE, OFF_VERSION, PAGE_FORMAT_VERSION, PAGE_SIZE,
};

verus! {

/// Bytes available for a non-slotted body, after the shared header.
pub const BODY_CAPACITY: usize = 8160;

/// A page that is zero but for its type and version bytes.
pub open spec fn blank_page(t: PageType) -> Seq<u8> {
    Seq::new(PAGE_SIZE as nat, |i: int| 0u8).update(14, t.byte()).update(15, PAGE_FORMAT_VERSION)
}

/// Zero a buffer and stamp a minimal header (type + version). The caller
/// fills the body and lets the pager checksum it on write.
pub fn init_header(buf: &mut [u8], page_type: PageType)
    requires
        old(buf)@.len() == PAGE_SIZE,
    ensures
        final(buf)@ == blank_page(page_type),
{
    zero_fill(buf);
    buf[OFF_TYPE] = page_type.to_u8();
    buf[OFF_VERSION] = PAGE_FORMAT_VERSION;
}

pub fn page_type(buf: &[u8]) -> (t: Option<PageType>)
    requires
        buf@.len() == PAGE_SIZE,
    ensures
        t == type_of_byte(buf@[14]),
{
    PageType::from_u8(buf[OFF_TYPE])
}

pub fn set_page_type(buf: &mut [u8], t: PageType)
    requires
        old(buf)@.len() == PAGE_SIZE,
    ensures
        final(buf)@ == old(buf)@.update(14, t.byte()),
{
    buf[OFF_TYPE] = t.to_u8();
}

pub fn page_lsn(buf: &[u8]) -> (v: u64)
    requires
        buf@.len() == PAGE_SIZE,
    ensures
        v == le64(buf@, 4),
{
    rd_u64(buf, OFF_PAGE_LSN)
}

pub fn set_page_lsn(buf: &mut [u8], v: u64)
    requires
        old(buf)@.len() == PAGE_SIZE,
    ensures
        final(buf)@ == splice(old(buf)@, 4, le64_bytes(v)),
        le64(final(buf)@, 4) == v,
{
    wr_u64(buf, OFF_PAGE_LSN, v);
}

/// The generic header link word; B-tree nodes keep sibling pointers here.
pub fn extra(buf: &[u8]) -> (v: u64)
    requires
        buf@.len() == PAGE_SIZE,
    ensures
        v == le64(buf@, 24),
{
    rd_u64(buf, OFF_EXTRA)
}

pub fn set_extra(buf: &mut [u8], v: u64)
    requires
        old(buf)@.len() == PAGE_SIZE,
    ensures
        final(buf)@ == splice(old(buf)@, 24, le64_bytes(v)),
        le64(final(buf)@, 24) == v,
{
    wr_u64(buf, OFF_EXTRA, v);
}

/// The body region, everything past the header.
pub fn body(buf: &[u8]) -> (s: &[u8])
    requires
        buf@.len() == PAGE_SIZE,
    ensures
        s@ == buf@.subrange(32, PAGE_SIZE as int),
{
    &buf[HEADER_SIZE..PAGE_SIZE]
}

/// The body region for writing; the header stays as it is.
pub fn body_mut(buf: &mut [u8]) -> (s: &mut [u8])
    requires
        old(buf)@.len() == PAGE_SIZE,
    ensures
        s@ == old(buf)@.subrange(32, PAGE_SIZE as int),
        final(buf)@ == old(buf)@.subrange(0, 32) + final(s)@,
{
    let (head, tail): (&mut [u8], &mut [u8]) = buf.split_at_mut(HEADER_SIZE);
    tail
}

/// Compute and store the checksum.
pub fn stamp_checksum(buf: &mut [u8])
    requires
        old(buf)@.len() == PAGE_SIZE,
    ensures
        final(buf)@ == stamped(old(buf)@),
{
    let ck: u32 = crc32(&buf[OFF_PAGE_LSN..PAGE_SIZE]);
    wr_u32(buf, OFF_CHECKSUM, ck);
}

/// Does the stored checksum match the bytes past it?
pub fn verify_checksum(buf: &[u8]) -> (r: bool)
    requires
        buf@.len() == PAGE_SIZE,
    ensures
        r == checksum_ok(buf@),
{
    rd_u32(buf, OFF_CHECKSUM) == crc32(&buf[OFF_PAGE_LSN..PAGE_SIZE])
}

} // verus!
