//! The page store and the log that an index lives in.
//!
//! A page is a fixed-size byte array that starts with a 32-byte header; a
//! slotted page has an array of line pointers after the header and grows its
//! entries down from the end. [`PageStore`] holds pages by number and
//! [`WalLog`] holds log records by position. Both are plain values: whoever
//! owns a file or a device moves pages and records in and out.
//!
//! After a checkpoint, the first record that changes a page is preceded by the
//! page's image; an image and its record are appended together or not at all.
//! Replay reads the log and appends nothing to it.

use vstd::prelude::*;

use crate::bytes;
use crate::fault::StorageFault;

verus! {

/// Bytes in a page.
pub const PAGE_SIZE: usize = 8192;

/// Bytes in the header at the start of every page.
pub const PAGE_HEADER_SIZE: usize = 32;

/// Bytes in a line pointer.
pub const LINE_POINTER_SIZE: usize = 4;

/// The number of no page.
pub const INVALID_PAGE: u64 = 0xffff_ffff_ffff_ffff;

/// The id of no transaction.
pub const INVALID_TXN: u64 = 0;

/// A page's bytes.
pub type Page = [u8; PAGE_SIZE];

/// A page's number.
#[derive(Debug, Clone, Copy, PartialEq, Eq, PartialOrd, Ord, Hash, Structural)]
pub struct PageId(pub u64);

impl PageId {
    /// The number of no page.
    pub fn invalid() -> (id: PageId)
        ensures
            id == PageId(INVALID_PAGE),
    {
        PageId(INVALID_PAGE)
    }
}

/// A log position. Positions grow from 1; 0 stands on a page that no record
/// has touched. A record has three of them: one for a checkpoint that comes
/// ahead of it, one for the image of its page that comes ahead of it, and its
/// own.
#[derive(Debug, Clone, Copy, PartialEq, Eq, PartialOrd, Ord, Hash, Structural)]
pub struct Lsn(pub u64);

/// A transaction's id.
#[derive(Debug, Clone, Copy, PartialEq, Eq, PartialOrd, Ord, Hash, Structural)]
pub struct TxnId(pub u64);

impl TxnId {
    /// The id of no transaction, which utility operations carry.
    pub fn invalid() -> (id: TxnId)
        ensures
            id == TxnId(INVALID_TXN),
    {
        TxnId(INVALID_TXN)
    }
}

// ---------------------------------------------------------------------
// The page header.
// ---------------------------------------------------------------------

/// The position of the last record applied to the page.
pub open spec fn pd_lsn(p: Seq<u8>) -> u64 {
    bytes::le64(p, 0)
}

/// The page's type tag.
pub open spec fn pd_flags(p: Seq<u8>) -> u16 {
    bytes::le16(p, 12)
}

/// Where the line-pointer array ends.
pub open spec fn pd_lower(p: Seq<u8>) -> u16 {
    bytes::le16(p, 14)
}

/// Where the entries start.
pub open spec fn pd_upper(p: Seq<u8>) -> u16 {
    bytes::le16(p, 16)
}

/// Where the entries end.
pub open spec fn pd_special(p: Seq<u8>) -> u16 {
    bytes::le16(p, 18)
}

/// The page with another log position in its header.
pub open spec fn with_lsn(p: Seq<u8>, lsn: Lsn) -> Seq<u8> {
    bytes::splice(p, 0, bytes::u64_le(lsn.0))
}

/// Reads the page's log position.
pub fn page_pd_lsn(page: &Page) -> (lsn: Lsn)
    ensures
        lsn.0 == pd_lsn(page@),
{
    Lsn(bytes::get_u64(page, 0))
}

/// Writes the page's log position.
pub fn set_page_pd_lsn(page: &mut Page, lsn: Lsn)
    ensures
        final(page)@ == with_lsn(old(page)@, lsn),
{
    bytes::put_u64(page, 0, lsn.0);
}

/// Reads the page's type tag.
pub fn page_pd_flags(page: &Page) -> (tag: u16)
    ensures
        tag == pd_flags(page@),
{
    bytes::get_u16(page, 12)
}

// ---------------------------------------------------------------------
// Line pointers: offset in 15 bits, a 2-bit state, length in 15 bits.
// ---------------------------------------------------------------------

/// The word of a line pointer to a normal entry.
pub open spec fn line_pointer(off: u16, len: u16) -> u32 {
    (off % 0x8000 + 0x8000 + 0x2_0000 * (len % 0x8000)) as u32
}

/// The offset that a line pointer holds.
pub open spec fn lp_off(raw: u32) -> u16 {
    (raw % 0x8000) as u16
}

/// Whether a line pointer is to a normal entry.
pub open spec fn lp_normal(raw: u32) -> bool {
    raw / 0x8000 % 4 == 1
}

/// The length that a line pointer holds.
pub open spec fn lp_len(raw: u32) -> u16 {
    (raw / 0x2_0000) as u16
}

/// A line pointer decodes to what it was made from.
pub proof fn lemma_line_pointer(off: u16, len: u16)
    requires
        off < 0x8000,
        len < 0x8000,
    ensures
        lp_off(line_pointer(off, len)) == off,
        lp_len(line_pointer(off, len)) == len,
        lp_normal(line_pointer(off, len)),
{
    let raw = line_pointer(off, len);
    assert(raw == off + 0x8000 * (1 + 4 * len));
    assert(raw / 0x8000 == 1 + 4 * len);
    assert(raw / 0x2_0000 == len);
}

/// The four bytes of a line pointer to a normal entry.
pub fn encode_line_pointer(off: u16, len: u16) -> (b: [u8; 4])
    ensures
        b@ == bytes::u32_le(line_pointer(off, len)),
{
    let raw: u32 = (off % 0x8000) as u32 + 0x8000 + 0x2_0000 * ((len % 0x8000) as u32);
    let mut b: [u8; 4] = [0u8; 4];
    bytes::put_u32(&mut b, 0, raw);
    assert(b@ =~= bytes::u32_le(raw));
    b
}

/// The offset, the length and whether the entry is normal.
pub fn decode_line_pointer(raw: u32) -> (r: (u16, u16, bool))
    ensures
        r == (lp_off(raw), lp_len(raw), lp_normal(raw)),
{
    ((raw % 0x8000) as u16, (raw / 0x2_0000) as u16, raw / 0x8000 % 4 == 1)
}

// ---------------------------------------------------------------------
// The page store.
// ---------------------------------------------------------------------

/// Pages by number, from 0 on.
pub struct PageStore {
    pages: Vec<Page>,
}

impl View for PageStore {
    type V = Seq<Seq<u8>>;

    /// The pages' bytes.
    closed spec fn view(&self) -> Seq<Seq<u8>> {
        Seq::new(self.pages@.len(), |i: int| self.pages@[i]@)
    }
}

/// The bytes of the page `id` among `pages`.
pub open spec fn fetched(pages: Seq<Seq<u8>>, id: PageId) -> Result<Seq<u8>, StorageFault> {
    if id.0 < pages.len() {
        Ok(pages[id.0 as int])
    } else {
        Err(StorageFault::NoSuchPage { page: id.0 })
    }
}

/// Every page has the size of a page.
pub open spec fn sized(pages: Seq<Seq<u8>>) -> bool {
    forall|i: int| 0 <= i < pages.len() ==> (#[trigger] pages[i]).len() == PAGE_SIZE
}

impl PageStore {
    /// An empty store.
    pub fn new() -> (s: Self)
        ensures
            s@ == Seq::<Seq<u8>>::empty(),
    {
        let s = PageStore { pages: Vec::new() };
        assert(s@ =~= Seq::<Seq<u8>>::empty());
        s
    }

    /// The number of pages.
    pub fn len(&self) -> (n: u64)
        ensures
            n == self@.len(),
    {
        self.pages.len() as u64
    }

    /// Every page in the store has the size of a page.
    pub proof fn lemma_sized(&self)
        ensures
            sized(self@),
            self@.len() <= usize::MAX,
    {
        assert forall|i: int| 0 <= i < self@.len() implies (#[trigger] self@[i]).len()
            == PAGE_SIZE by {
            assert(self.pages@[i]@.len() == PAGE_SIZE);
        }
        assert(self.pages.len() == self@.len());
    }

    /// Reads a page.
    pub fn pin(&self, id: PageId) -> (r: Result<Page, StorageFault>)
        ensures
            match fetched(self@, id) {
                Ok(b) => r matches Ok(p) && p@ == b && b.len() == PAGE_SIZE,
                Err(f) => r == Err::<Page, StorageFault>(f),
            },
    {
        if id.0 < self.pages.len() as u64 {
            Ok(self.pages[id.0 as usize])
        } else {
            Err(StorageFault::NoSuchPage { page: id.0 })
        }
    }

    /// The page `id`.
    pub fn get(&self, id: PageId) -> (p: &Page)
        requires
            id.0 < self@.len(),
        ensures
            p@ == self@[id.0 as int],
    {
        assert(id.0 < self.pages.len());
        &self.pages[id.0 as usize]
    }

    /// Writes a page.
    pub fn put(&mut self, id: PageId, page: Page)
        requires
            id.0 < old(self)@.len(),
        ensures
            final(self)@ == old(self)@.update(id.0 as int, page@),
    {
        assert(id.0 < self.pages.len());
        self.pages[id.0 as usize] = page;
        assert(self@ =~= old(self)@.update(id.0 as int, page@));
    }

    /// Adds a page and gives its number; `INVALID_PAGE` is never given.
    pub fn allocate(&mut self, page: Page) -> (r: Result<PageId, StorageFault>)
        ensures
            old(self)@.len() < INVALID_PAGE ==> {
                &&& r == Ok::<PageId, StorageFault>(PageId(old(self)@.len() as u64))
                &&& final(self)@ == old(self)@.push(page@)
            },
            old(self)@.len() >= INVALID_PAGE ==> {
                &&& r == Err::<PageId, StorageFault>(StorageFault::StoreFull)
                &&& final(self)@ == old(self)@
            },
    {
        let n: u64 = self.pages.len() as u64;
        if n >= INVALID_PAGE {
            return Err(StorageFault::StoreFull);
        }
        self.pages.push(page);
        assert(self@ =~= old(self)@.push(page@));
        Ok(PageId(n))
    }
}

// ---------------------------------------------------------------------
// The log.
// ---------------------------------------------------------------------

/// What a log record says; `W` is a list of words and `B` a list of bytes.
#[derive(Debug, Clone)]
pub enum Payload<W, B> {
    /// The whole content of a freshly initialized page.
    FullPageImage { page_id: PageId, image: B },
    /// A node entry is created.
    NodeInit {
        meta_page_id: PageId,
        page_id: PageId,
        slot_id: u16,
        node_id: u32,
        level: u8,
        dim: u16,
        vector: W,
    },
    /// One level's neighbor list is replaced.
    SetNeighbors {
        meta_page_id: PageId,
        page_id: PageId,
        slot_id: u16,
        node_id: u32,
        level: u8,
        neighbors: W,
    },
    /// The entry point and its level are replaced.
    MetaUpdate { meta_page_id: PageId, entry_point: u32, max_level: u8 },
    /// A node entry is marked deleted.
    NodeTombstone {
        meta_page_id: PageId,
        page_id: PageId,
        slot_id: u16,
        node_id: u32,
        dim: u16,
    },
    /// A node's place is published in the directory.
    DirAppend { dir_tail_page: PageId, node_id: u32, target_page: PageId, target_slot: u16 },
    /// A directory page is linked behind the tail.
    DirLink { old_tail_page: PageId, next_page: PageId },
    /// A node entry becomes live.
    PublishLive {
        meta_page_id: PageId,
        page_id: PageId,
        slot_id: u16,
        node_id: u32,
        dim: u16,
    },
}

/// A payload as it is held.
pub type WalPayload = Payload<Vec<u32>, Vec<u8>>;

/// A payload as contracts speak of it.
pub type PayloadView = Payload<Seq<u32>, Seq<u8>>;

impl View for Payload<Vec<u32>, Vec<u8>> {
    type V = Payload<Seq<u32>, Seq<u8>>;

    open spec fn view(&self) -> Payload<Seq<u32>, Seq<u8>> {
        match *self {
            Payload::FullPageImage { page_id, image } => Payload::FullPageImage {
                page_id,
                image: image@,
            },
            Payload::NodeInit { meta_page_id, page_id, slot_id, node_id, level, dim, vector } =>
                Payload::NodeInit {
                    meta_page_id,
                    page_id,
                    slot_id,
                    node_id,
                    level,
                    dim,
                    vector: vector@,
                },
            Payload::SetNeighbors { meta_page_id, page_id, slot_id, node_id, level, neighbors } =>
                Payload::SetNeighbors {
                    meta_page_id,
                    page_id,
                    slot_id,
                    node_id,
                    level,
                    neighbors: neighbors@,
                },
            Payload::MetaUpdate { meta_page_id, entry_point, max_level } => Payload::MetaUpdate {
                meta_page_id,
                entry_point,
                max_level,
            },
            Payload::NodeTombstone { meta_page_id, page_id, slot_id, node_id, dim } =>
                Payload::NodeTombstone { meta_page_id, page_id, slot_id, node_id, dim },
            Payload::DirAppend { dir_tail_page, node_id, target_page, target_slot } =>
                Payload::DirAppend { dir_tail_page, node_id, target_page, target_slot },
            Payload::DirLink { old_tail_page, next_page } => Payload::DirLink {
                old_tail_page,
                next_page,
            },
            Payload::PublishLive { meta_page_id, page_id, slot_id, node_id, dim } =>
                Payload::PublishLive { meta_page_id, page_id, slot_id, node_id, dim },
        }
    }
}

/// Every word is below the next.
pub open spec fn ascending(w: Seq<u32>) -> bool {
    forall|i: int, j: int| 0 <= i < j < w.len() ==> w[i] < w[j]
}

/// What is wrong with a payload, if anything. Page numbers and node ids name
/// something, levels fit six bits, neighbor lists are strictly ascending and
/// do not hold their owner, a page does not follow itself.
pub open spec fn payload_fault(p: PayloadView) -> Option<StorageFault> {
    match p {
        Payload::FullPageImage { page_id, image } => if page_id.0 == INVALID_PAGE || image.len()
            != PAGE_SIZE {
            Some(StorageFault::BadRecord { kind: "FullPageImage" })
        } else {
            None
        },
        Payload::NodeInit { meta_page_id, page_id, slot_id, node_id, level, dim, vector } => if {
            ||| meta_page_id.0 == INVALID_PAGE
            ||| page_id.0 == INVALID_PAGE
            ||| node_id == u32::MAX
            ||| level > 63
            ||| vector.len() != dim
        } {
            Some(StorageFault::BadRecord { kind: "HnswNodeInit" })
        } else {
            None
        },
        Payload::SetNeighbors { meta_page_id, page_id, slot_id, node_id, level, neighbors } => if {
            ||| meta_page_id.0 == INVALID_PAGE
            ||| page_id.0 == INVALID_PAGE
            ||| node_id == u32::MAX
            ||| level > 63
            ||| neighbors.len() > 0xffff
            ||| !ascending(neighbors)
            ||| neighbors.contains(node_id)
        } {
            Some(StorageFault::BadRecord { kind: "HnswSetNeighbors" })
        } else {
            None
        },
        Payload::MetaUpdate { meta_page_id, entry_point, max_level } => if {
            ||| meta_page_id.0 == INVALID_PAGE
            ||| max_level > 63
            ||| (entry_point == u32::MAX && max_level != 0)
        } {
            Some(StorageFault::BadRecord { kind: "HnswMetaUpdate" })
        } else {
            None
        },
        Payload::NodeTombstone { meta_page_id, page_id, slot_id, node_id, dim } => if {
            ||| meta_page_id.0 == INVALID_PAGE
            ||| page_id.0 == INVALID_PAGE
            ||| node_id == u32::MAX
        } {
            Some(StorageFault::BadRecord { kind: "HnswNodeTombstone" })
        } else {
            None
        },
        Payload::DirAppend { dir_tail_page, node_id, target_page, target_slot } => if {
            ||| dir_tail_page.0 == INVALID_PAGE
            ||| target_page.0 == INVALID_PAGE
            ||| node_id == u32::MAX
        } {
            Some(StorageFault::BadRecord { kind: "HnswDirAppend" })
        } else {
            None
        },
        Payload::DirLink { old_tail_page, next_page } => if {
            ||| old_tail_page.0 == INVALID_PAGE
            ||| next_page.0 == INVALID_PAGE
            ||| next_page == old_tail_page
        } {
            Some(StorageFault::BadRecord { kind: "HnswDirLink" })
        } else {
            None
        },
        Payload::PublishLive { meta_page_id, page_id, slot_id, node_id, dim } => if {
            ||| meta_page_id.0 == INVALID_PAGE
            ||| page_id.0 == INVALID_PAGE
            ||| node_id == u32::MAX
        } {
            Some(StorageFault::BadRecord { kind: "HnswPublishLive" })
        } else {
            None
        },
    }
}

/// Whether a list is strictly ascending.
pub fn is_ascending(w: &[u32]) -> (r: bool)
    ensures
        r == ascending(w@),
{
    let mut i: usize = 1;
    while i < w.len()
        invariant
            1 <= i,
            i <= w@.len() || w@.len() == 0,
            ascending(w@.take(if i <= w@.len() { i as int } else { 0 })),
        decreases w@.len() - i,
    {
        if w[i - 1] >= w[i] {
            assert(!(w@[i - 1] < w@[i as int]));
            return false;
        }
        assert forall|a: int, b: int| 0 <= a < b < i + 1 implies w@[a] < w@[b] by {
            if b < i {
                assert(w@.take(i as int)[a] < w@.take(i as int)[b]);
            } else if a < i - 1 {
                assert(w@.take(i as int)[a] < w@.take(i as int)[i - 1]);
            }
        }
        assert(ascending(w@.take(i + 1)));
        i = i + 1;
    }
    assert(w@.len() > 0 ==> w@.take(i as int) =~= w@);
    true
}

/// Whether a list holds a word.
pub fn holds(w: &[u32], x: u32) -> (r: bool)
    ensures
        r == w@.contains(x),
{
    let mut i: usize = 0;
    while i < w.len()
        invariant
            i <= w@.len(),
            forall|j: int| 0 <= j < i ==> w@[j] != x,
        decreases w@.len() - i,
    {
        if w[i] == x {
            assert(w@[i as int] == x);
            return true;
        }
        i = i + 1;
    }
    false
}

/// What is wrong with a payload, if anything.
pub fn check_payload(p: &WalPayload) -> (r: Option<StorageFault>)
    ensures
        r == payload_fault(p@),
{
    match p {
        Payload::FullPageImage { page_id, image } => {
            if page_id.0 == INVALID_PAGE || image.len() != PAGE_SIZE {
                return Some(StorageFault::BadRecord { kind: "FullPageImage" });
            }
        },
        Payload::NodeInit { meta_page_id, page_id, node_id, level, dim, vector, .. } => {
            if meta_page_id.0 == INVALID_PAGE || page_id.0 == INVALID_PAGE || *node_id == u32::MAX
                || *level > 63 || vector.len() != *dim as usize {
                return Some(StorageFault::BadRecord { kind: "HnswNodeInit" });
            }
        },
        Payload::SetNeighbors { meta_page_id, page_id, node_id, level, neighbors, .. } => {
            if meta_page_id.0 == INVALID_PAGE || page_id.0 == INVALID_PAGE || *node_id == u32::MAX
                || *level > 63 || neighbors.len() > 0xffff || !is_ascending(neighbors) || holds(
                neighbors,
                *node_id,
            ) {
                return Some(StorageFault::BadRecord { kind: "HnswSetNeighbors" });
            }
        },
        Payload::MetaUpdate { meta_page_id, entry_point, max_level } => {
            if meta_page_id.0 == INVALID_PAGE || *max_level > 63 || (*entry_point == u32::MAX
                && *max_level != 0) {
                return Some(StorageFault::BadRecord { kind: "HnswMetaUpdate" });
            }
        },
        Payload::NodeTombstone { meta_page_id, page_id, node_id, .. } => {
            if meta_page_id.0 == INVALID_PAGE || page_id.0 == INVALID_PAGE || *node_id
                == u32::MAX {
                return Some(StorageFault::BadRecord { kind: "HnswNodeTombstone" });
            }
        },
        Payload::DirAppend { dir_tail_page, node_id, target_page, .. } => {
            if dir_tail_page.0 == INVALID_PAGE || target_page.0 == INVALID_PAGE || *node_id
                == u32::MAX {
                return Some(StorageFault::BadRecord { kind: "HnswDirAppend" });
            }
        },
        Payload::DirLink { old_tail_page, next_page } => {
            if old_tail_page.0 == INVALID_PAGE || next_page.0 == INVALID_PAGE || next_page.0
                == old_tail_page.0 {
                return Some(StorageFault::BadRecord { kind: "HnswDirLink" });
            }
        },
        Payload::PublishLive { meta_page_id, page_id, node_id, .. } => {
            if meta_page_id.0 == INVALID_PAGE || page_id.0 == INVALID_PAGE || *node_id
                == u32::MAX {
                return Some(StorageFault::BadRecord { kind: "HnswPublishLive" });
            }
        },
    }
    None
}

/// A log record.
#[derive(Debug, Clone)]
pub struct WalRecord {
    /// Its position.
    pub lsn: Lsn,
    /// The transaction it belongs to; index records belong to none.
    pub txn_id: TxnId,
    /// What it says.
    pub payload: WalPayload,
}

/// A log record as contracts speak of it.
pub struct RecordView {
    /// Its position.
    pub lsn: Lsn,
    /// The transaction it belongs to.
    pub txn_id: TxnId,
    /// What it says.
    pub payload: PayloadView,
}

impl View for WalRecord {
    type V = RecordView;

    open spec fn view(&self) -> RecordView {
        RecordView { lsn: self.lsn, txn_id: self.txn_id, payload: self.payload@ }
    }
}

/// How many records a log can hold: as many as there are positions for.
pub const LOG_CAPACITY: u64 = 0x5555_5555_5555_5555;

/// The image of a page that was logged ahead of a record, so that a page that
/// was torn on its way out since the checkpoint can be restored before the
/// record is replayed.
#[derive(Debug, Clone)]
pub struct PreImage {
    /// Its position, below that of the record and above all before it.
    pub lsn: Lsn,
    /// The page.
    pub page_id: PageId,
    /// The page's bytes.
    pub image: Vec<u8>,
}

/// An image ahead of a record, as contracts speak of it.
pub struct PreImageView {
    /// Its position.
    pub lsn: Lsn,
    /// The page.
    pub page_id: PageId,
    /// The page's bytes.
    pub image: Seq<u8>,
}

impl View for PreImage {
    type V = PreImageView;

    open spec fn view(&self) -> PreImageView {
        PreImageView { lsn: self.lsn, page_id: self.page_id, image: self.image@ }
    }
}

/// Log records by position, and beside them the page images that stand
/// between them. A checkpoint is a position: whatever is below it has reached
/// the pages outside.
pub struct WalLog {
    records: Vec<WalRecord>,
    images: Vec<PreImage>,
    checkpoint: Lsn,
    flushed: u64,
}

impl View for WalLog {
    type V = Seq<RecordView>;

    /// The records.
    closed spec fn view(&self) -> Seq<RecordView> {
        Seq::new(self.records@.len(), |i: int| self.records@[i]@)
    }
}

/// The position of the next record of a log.
pub open spec fn next_lsn(log: Seq<RecordView>) -> Lsn {
    Lsn((3 * log.len() + 3) as u64)
}

/// The position of a page image ahead of the next record of a log.
pub open spec fn image_lsn(log: Seq<RecordView>) -> Lsn {
    Lsn((3 * log.len() + 2) as u64)
}

/// The position of a checkpoint ahead of the next record of a log.
pub open spec fn checkpoint_lsn(log: Seq<RecordView>) -> Lsn {
    Lsn((3 * log.len() + 1) as u64)
}

/// Whether a page's image is due before the page changes: no record has
/// touched the page since the checkpoint.
pub open spec fn image_due(checkpoint: Lsn, p: Seq<u8>) -> bool {
    pd_lsn(p) < checkpoint.0
}

/// The images of a log once the page `id`, with the bytes `p`, is about to be
/// changed by the next record.
pub open spec fn imaged(
    images: Seq<PreImageView>,
    checkpoint: Lsn,
    log: Seq<RecordView>,
    id: PageId,
    p: Seq<u8>,
) -> Seq<PreImageView> {
    if image_due(checkpoint, p) {
        images.push(PreImageView { lsn: image_lsn(log), page_id: id, image: p })
    } else {
        images
    }
}

/// The record that a utility operation appends to `log` for `p`.
pub open spec fn utility_record(log: Seq<RecordView>, p: PayloadView) -> RecordView {
    RecordView { lsn: next_lsn(log), txn_id: TxnId(INVALID_TXN), payload: p }
}

/// Why `p` cannot be appended to `log`, if it cannot.
pub open spec fn append_fault(log: Seq<RecordView>, p: PayloadView) -> Option<StorageFault> {
    if payload_fault(p) is Some {
        payload_fault(p)
    } else if log.len() >= LOG_CAPACITY {
        Some(StorageFault::LogFull)
    } else {
        None
    }
}

impl WalLog {
    /// How many records are durable.
    pub closed spec fn durable(&self) -> u64 {
        self.flushed
    }

    /// An empty log.
    pub fn new() -> (l: Self)
        ensures
            l@ == Seq::<RecordView>::empty(),
            l.durable() == 0,
            l.images() == Seq::<PreImageView>::empty(),
            l.checkpoint() == Lsn(0),
    {
        let l = WalLog {
            records: Vec::new(),
            images: Vec::new(),
            checkpoint: Lsn(0),
            flushed: 0,
        };
        assert(l@ =~= Seq::<RecordView>::empty());
        assert(l.images() =~= Seq::<PreImageView>::empty());
        l
    }

    /// The page images that stand between the records.
    pub closed spec fn images(&self) -> Seq<PreImageView> {
        Seq::new(self.images@.len(), |i: int| self.images@[i]@)
    }

    /// The last checkpoint; 0 before the first.
    pub closed spec fn checkpoint(&self) -> Lsn {
        self.checkpoint
    }

    /// The page images that stand between the records.
    pub fn pre_images(&self) -> (r: &Vec<PreImage>)
        ensures
            r@.len() == self.images().len(),
            forall|i: int| 0 <= i < r@.len() ==> (#[trigger] r@[i])@ == self.images()[i],
    {
        &self.images
    }

    /// Publishes a checkpoint at the end of the log and gives its position.
    /// From here on the first change of a page is preceded by its image.
    pub fn publish_checkpoint(&mut self) -> (r: Result<Lsn, StorageFault>)
        ensures
            old(self)@.len() >= LOG_CAPACITY ==> {
                &&& r == Err::<Lsn, StorageFault>(StorageFault::LogFull)
                &&& final(self).checkpoint() == old(self).checkpoint()
            },
            old(self)@.len() < LOG_CAPACITY ==> {
                &&& r == Ok::<Lsn, StorageFault>(checkpoint_lsn(old(self)@))
                &&& final(self).checkpoint() == checkpoint_lsn(old(self)@)
            },
            final(self)@ == old(self)@,
            final(self).images() == old(self).images(),
            final(self).durable() == old(self).durable(),
    {
        let n: u64 = self.records.len() as u64;
        if n >= LOG_CAPACITY {
            return Err(StorageFault::LogFull);
        }
        self.checkpoint = Lsn(3 * n + 1);
        assert(self@ =~= old(self)@);
        assert(self.images() =~= old(self).images());
        Ok(self.checkpoint)
    }

    /// The records.
    pub fn records(&self) -> (r: &Vec<WalRecord>)
        ensures
            r@.len() == self@.len(),
            forall|i: int| 0 <= i < r@.len() ==> (#[trigger] r@[i])@ == self@[i],
    {
        &self.records
    }

    /// How many records are durable.
    pub fn flushed(&self) -> (n: u64)
        ensures
            n == self.durable(),
    {
        self.flushed
    }

    /// Appends a record of a utility operation and gives its position.
    pub fn append(&mut self, payload: WalPayload) -> (r: Result<Lsn, StorageFault>)
        ensures
            match append_fault(old(self)@, payload@) {
                Some(f) => r == Err::<Lsn, StorageFault>(f) && final(self)@ == old(self)@,
                None => {
                    &&& r == Ok::<Lsn, StorageFault>(next_lsn(old(self)@))
                    &&& final(self)@ == old(self)@.push(utility_record(old(self)@, payload@))
                },
            },
            final(self).durable() == old(self).durable(),
            final(self).images() == old(self).images(),
            final(self).checkpoint() == old(self).checkpoint(),
    {
        match check_payload(&payload) {
            Some(f) => {
                return Err(f);
            },
            None => {},
        }
        let n: u64 = self.records.len() as u64;
        if n >= LOG_CAPACITY {
            return Err(StorageFault::LogFull);
        }
        let lsn: Lsn = Lsn(3 * n + 3);
        let record = WalRecord { lsn, txn_id: TxnId::invalid(), payload };
        self.records.push(record);
        assert(self@ =~= old(self)@.push(utility_record(old(self)@, payload@)));
        assert(self.images() =~= old(self).images());
        Ok(lsn)
    }

    /// Appends a record that is about to change the page `id`, now `page`,
    /// and ahead of it the page's image if one is due. Where the record
    /// cannot be appended, neither is the image.
    pub fn append_over(&mut self, payload: WalPayload, id: PageId, page: &Page) -> (r: Result<
        Lsn,
        StorageFault,
    >)
        ensures
            match append_fault(old(self)@, payload@) {
                Some(f) => {
                    &&& r == Err::<Lsn, StorageFault>(f)
                    &&& final(self)@ == old(self)@
                    &&& final(self).images() == old(self).images()
                },
                None => {
                    &&& r == Ok::<Lsn, StorageFault>(next_lsn(old(self)@))
                    &&& final(self)@ == old(self)@.push(utility_record(old(self)@, payload@))
                    &&& final(self).images() == imaged(
                        old(self).images(),
                        old(self).checkpoint(),
                        old(self)@,
                        id,
                        page@,
                    )
                },
            },
            final(self).durable() == old(self).durable(),
            final(self).checkpoint() == old(self).checkpoint(),
    {
        match check_payload(&payload) {
            Some(f) => {
                return Err(f);
            },
            None => {},
        }
        let n: u64 = self.records.len() as u64;
        if n >= LOG_CAPACITY {
            return Err(StorageFault::LogFull);
        }
        if page_pd_lsn(page).0 < self.checkpoint.0 {
            let mut image: Vec<u8> = Vec::new();
            bytes::append_bytes(&mut image, page);
            assert(image@ =~= page@);
            self.images.push(PreImage { lsn: Lsn(3 * n + 2), page_id: id, image });
        }
        assert(self@ =~= old(self)@);
        assert(self.images() =~= imaged(
            old(self).images(),
            old(self).checkpoint(),
            old(self)@,
            id,
            page@,
        ));
        self.append(payload)
    }

    /// Makes every record durable.
    pub fn flush(&mut self)
        ensures
            final(self)@ == old(self)@,
            final(self).durable() == old(self)@.len(),
            final(self).images() == old(self).images(),
            final(self).checkpoint() == old(self).checkpoint(),
    {
        self.flushed = self.records.len() as u64;
        assert(self@ =~= old(self)@);
        assert(self.images() =~= old(self).images());
    }
}

} // verus!
