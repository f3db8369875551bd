//! Page types and page initialization.
//!
//! The page type stands in the header's flag field. A node page holds node
//! entries; a directory page starts with a 24-byte header of its own:
//!
//! ```text
//! version:u8 | flags:u8 | reserved:u16 | ordinal:u64 | count:u32 | next:u64
//! ```
//!
//! Initialization zero-fills the whole page before it writes a header: the
//! image that is logged is the whole page, and a byte left over from an
//! earlier use of the page would go into the log with it.

use vstd::prelude::*;

use crate::bytes;
use crate::error::HnswError;
use crate::storage;
use crate::storage::Lsn;
use crate::storage::Page;
use crate::storage::PageId;
use crate::storage::Payload;
use crate::storage::WalLog;
use crate::storage::WalPayload;
use crate::storage::PAGE_SIZE;

verus! {

/// Type tag of a node page. The tag 0 is that of no page in use.
pub const PAGE_TYPE_NODE: u16 = 1;

/// Type tag of a directory page.
pub const PAGE_TYPE_DIR: u16 = 2;

/// Type tag of the index meta page.
pub const PAGE_TYPE_META: u16 = 3;

/// Bytes of the directory header.
pub const DIR_HEADER_SIZE: usize = 24;

/// Version of the directory header.
pub const DIR_FORMAT_VERSION: u8 = 1;

/// Offset of the directory header's version.
pub const DIR_OFF_VERSION: usize = 32;

/// Offset of the directory header's flags.
pub const DIR_OFF_FLAGS: usize = 33;

/// Offset of the directory header's reserved field.
pub const DIR_OFF_RESERVED: usize = 34;

/// Offset of the directory header's ordinal.
pub const DIR_OFF_ORDINAL: usize = 36;

/// Offset of the directory header's count.
pub const DIR_OFF_COUNT: usize = 44;

/// Offset of the directory header's link.
pub const DIR_OFF_NEXT: usize = 48;

/// An empty page of type `tag`: the header and nothing else.
pub open spec fn blank_page(tag: u16) -> Seq<u8> {
    let p0 = bytes::zeros(PAGE_SIZE as nat);
    let p1 = bytes::splice(p0, 14, bytes::u16_le(32));
    let p2 = bytes::splice(p1, 16, bytes::u16_le(8192));
    let p3 = bytes::splice(p2, 18, bytes::u16_le(8192));
    bytes::splice(p3, 12, bytes::u16_le(tag))
}

/// An empty directory page, last in its chain.
pub open spec fn blank_dir_page(ordinal: u64) -> Seq<u8> {
    let p1 = blank_page(PAGE_TYPE_DIR).update(32, DIR_FORMAT_VERSION);
    let p2 = bytes::splice(p1, 36, bytes::u64_le(ordinal));
    bytes::splice(p2, 48, bytes::u64_le(storage::INVALID_PAGE))
}

/// A directory page's position in its chain.
pub open spec fn spec_dir_ordinal(p: Seq<u8>) -> u64 {
    bytes::le64(p, 36)
}

/// A directory page's number of entries.
pub open spec fn spec_dir_count(p: Seq<u8>) -> u32 {
    bytes::le32(p, 44)
}

/// The directory page that follows.
pub open spec fn spec_dir_next(p: Seq<u8>) -> PageId {
    PageId(bytes::le64(p, 48))
}

/// What an initialized page reads as: its type, the bounds of an empty
/// slotted page, no log position, and zeros past the header.
pub proof fn lemma_blank_page(tag: u16)
    ensures
        blank_page(tag).len() == PAGE_SIZE,
        storage::pd_flags(blank_page(tag)) == tag,
        storage::pd_lower(blank_page(tag)) == 32,
        storage::pd_upper(blank_page(tag)) == 8192,
        storage::pd_special(blank_page(tag)) == 8192,
        storage::pd_lsn(blank_page(tag)) == 0,
        forall|i: int| 32 <= i < PAGE_SIZE ==> blank_page(tag)[i] == 0,
{
    let p = blank_page(tag);
    bytes::lemma_u16_le(tag);
    bytes::lemma_u16_le(32);
    bytes::lemma_u16_le(8192);
    assert(p[12] == bytes::u16_le(tag)[0] && p[13] == bytes::u16_le(tag)[1]);
    assert(p[14] == bytes::u16_le(32)[0] && p[15] == bytes::u16_le(32)[1]);
    assert(p[16] == bytes::u16_le(8192)[0] && p[17] == bytes::u16_le(8192)[1]);
    assert(p[18] == bytes::u16_le(8192)[0] && p[19] == bytes::u16_le(8192)[1]);
    assert(p[0] == 0 && p[1] == 0 && p[2] == 0 && p[3] == 0);
    assert(p[4] == 0 && p[5] == 0 && p[6] == 0 && p[7] == 0);
}

/// What an initialized directory page reads as: an empty tail of its chain,
/// with zeros past its two headers whatever the page held before.
pub proof fn lemma_blank_dir_page(ordinal: u64)
    ensures
        blank_dir_page(ordinal).len() == PAGE_SIZE,
        storage::pd_flags(blank_dir_page(ordinal)) == PAGE_TYPE_DIR,
        storage::pd_lsn(blank_dir_page(ordinal)) == 0,
        blank_dir_page(ordinal)[32] == DIR_FORMAT_VERSION,
        spec_dir_ordinal(blank_dir_page(ordinal)) == ordinal,
        spec_dir_count(blank_dir_page(ordinal)) == 0,
        spec_dir_next(blank_dir_page(ordinal)) == PageId(storage::INVALID_PAGE),
        forall|i: int| 56 <= i < PAGE_SIZE ==> blank_dir_page(ordinal)[i] == 0,
{
    lemma_blank_page(PAGE_TYPE_DIR);
    let b = blank_page(PAGE_TYPE_DIR);
    let p = blank_dir_page(ordinal);
    let p1 = b.update(32, DIR_FORMAT_VERSION);
    let p2 = bytes::splice(p1, 36, bytes::u64_le(ordinal));
    bytes::lemma_u64_le(ordinal);
    bytes::lemma_u64_le(storage::INVALID_PAGE);
    bytes::lemma_splice_le64(p1, 36, ordinal);
    bytes::lemma_splice_le64(p2, 48, storage::INVALID_PAGE);
    assert forall|i: int| 36 <= i < 44 implies p[i] == p2[i] by {}
    assert(forall|i: int| 0 <= i < 32 ==> p[i] == b[i]);
    assert(p[44] == b[44] && p[45] == b[45] && p[46] == b[46] && p[47] == b[47]);
}

/// Writes the header of an empty page of type `page_type` over a page of
/// zeros.
fn write_header(page: &mut Page, page_type: u16)
    ensures
        old(page)@ == bytes::zeros(PAGE_SIZE as nat) ==> final(page)@ == blank_page(page_type),
{
    bytes::put_u16(page, 14, 32);
    bytes::put_u16(page, 16, 8192);
    bytes::put_u16(page, 18, 8192);
    bytes::put_u16(page, 12, page_type);
}

/// Zero-fills a page.
fn clear(page: &mut Page)
    ensures
        final(page)@ == bytes::zeros(PAGE_SIZE as nat),
{
    bytes::fill_zero(page, 0, PAGE_SIZE);
    assert(page@ =~= bytes::zeros(PAGE_SIZE as nat));
}

/// Initializes a node page.
pub fn init_node_page(page: &mut Page)
    ensures
        final(page)@ == blank_page(PAGE_TYPE_NODE),
{
    clear(page);
    write_header(page, PAGE_TYPE_NODE);
}

/// Initializes the index meta page; its fields are written afterwards.
pub fn init_meta_page(page: &mut Page)
    ensures
        final(page)@ == blank_page(PAGE_TYPE_META),
{
    clear(page);
    write_header(page, PAGE_TYPE_META);
}

/// Initializes a directory page with position `ordinal` in its chain, empty
/// and last.
pub fn init_dir_page(page: &mut Page, ordinal: u64)
    ensures
        final(page)@ == blank_dir_page(ordinal),
{
    clear(page);
    write_header(page, PAGE_TYPE_DIR);
    page[DIR_OFF_VERSION] = DIR_FORMAT_VERSION;
    bytes::put_u64(page, DIR_OFF_ORDINAL, ordinal);
    bytes::put_u64(page, DIR_OFF_NEXT, storage::INVALID_PAGE);
}

/// The page's type tag.
pub fn page_type(page: &Page) -> (tag: u16)
    ensures
        tag == storage::pd_flags(page@),
{
    storage::page_pd_flags(page)
}

/// The directory page's position in its chain.
pub fn dir_ordinal(page: &Page) -> (r: u64)
    ensures
        r == spec_dir_ordinal(page@),
{
    bytes::get_u64(page, DIR_OFF_ORDINAL)
}

/// The directory page's number of entries.
pub fn dir_count(page: &Page) -> (r: u32)
    ensures
        r == spec_dir_count(page@),
{
    bytes::get_u32(page, DIR_OFF_COUNT)
}

/// The directory page that follows; the tail has none.
pub fn dir_next(page: &Page) -> (r: PageId)
    ensures
        r == spec_dir_next(page@),
{
    PageId(bytes::get_u64(page, DIR_OFF_NEXT))
}

/// Copies a page into a vector.
pub fn page_bytes(page: &Page) -> (v: Vec<u8>)
    ensures
        v@ == page@,
{
    let mut v: Vec<u8> = Vec::new();
    bytes::append_bytes(&mut v, page);
    assert(v@ =~= page@);
    v
}

/// Logs the whole content of a freshly initialized page and stamps the page
/// with the record's position. Without this record a recycled page would
/// recover with the bytes of its earlier use.
pub fn log_page_init(log: &mut WalLog, page_id: PageId, page: &mut Page) -> (r: Result<
    Lsn,
    HnswError,
>)
    ensures
        ({
            let payload = Payload::FullPageImage { page_id, image: old(page)@ };
            match storage::append_fault(old(log)@, payload) {
                Some(fault) => {
                    &&& r == Err::<Lsn, HnswError>(
                        HnswError::Storage {
                            context: if storage::payload_fault(payload) is Some {
                                "FPI encode"
                            } else {
                                "log_page_init WAL append"
                            },
                            fault,
                        },
                    )
                    &&& final(log)@ == old(log)@
                    &&& final(page)@ == old(page)@
                },
                None => {
                    &&& r == Ok::<Lsn, HnswError>(storage::next_lsn(old(log)@))
                    &&& final(log)@ == old(log)@.push(
                        storage::utility_record(old(log)@, payload),
                    )
                    &&& final(page)@ == storage::with_lsn(
                        old(page)@,
                        storage::next_lsn(old(log)@),
                    )
                },
            }
        }),
        final(log).durable() == old(log).durable(),
        final(log).images() == old(log).images(),
        final(log).checkpoint() == old(log).checkpoint(),
{
    let payload: WalPayload = Payload::FullPageImage { page_id, image: page_bytes(page) };
    match storage::check_payload(&payload) {
        Some(fault) => {
            return Err(HnswError::Storage { context: "FPI encode", fault });
        },
        None => {},
    }
    match log.append(payload) {
        Err(fault) => Err(HnswError::Storage { context: "log_page_init WAL append", fault }),
        Ok(lsn) => {
            storage::set_page_pd_lsn(page, lsn);
            Ok(lsn)
        },
    }
}

} // verus!
