//! Replay of the index's log records after a crash.
//!
//! One handler per record kind, all of one shape:
//!
//! 1. An index record is a utility operation: one that belongs to a
//!    transaction is refused before any page is touched.
//! 2. The page that the record changes is read and must have the record's
//!    page type.
//! 3. A page whose log position is at or past the record's already shows the
//!    record: it is left alone, and nothing is validated again.
//! 4. The record is validated, as far as it and the pages that it names can
//!    decide. What needs the directory is the audit's business.
//! 5. The record is applied, and the page takes the record's position.
//!
//! A handler changes one page at most, and none when it fails.

use vstd::prelude::*;

use crate::apply;
use crate::dir::DIR_ENTRIES_PER_PAGE;
use crate::error::HnswError;
use crate::fault::Reason;
use crate::fault::StorageFault;
use crate::meta;
use crate::node;
use crate::node::NodeGeometry;
use crate::page;
use crate::page::PAGE_TYPE_DIR;
use crate::page::PAGE_TYPE_META;
use crate::page::PAGE_TYPE_NODE;
use crate::rng;
use crate::storage;
use crate::storage::Lsn;
use crate::storage::Page;
use crate::storage::PageId;
use crate::storage::PageStore;
use crate::storage::Payload;
use crate::storage::PayloadView;
use crate::storage::RecordView;
use crate::storage::TxnId;
use crate::storage::WalRecord;
use crate::text;
use crate::text::Piece;
use crate::validate;
use crate::validate::MetaView;

verus! {

// ---------------------------------------------------------------------
// Record kinds and errors.
// ---------------------------------------------------------------------

/// The kind of a log record.
#[derive(Debug, Clone, Copy, PartialEq, Eq, Structural)]
pub enum WalRecordType {
    /// The whole content of a page.
    FullPageImage,
    /// A node entry is created.
    HnswNodeInit,
    /// One level's neighbor list is replaced.
    HnswSetNeighbors,
    /// The entry point and its level are replaced.
    HnswMetaUpdate,
    /// A node entry is marked deleted.
    HnswNodeTombstone,
    /// A node's place is published in the directory.
    HnswDirAppend,
    /// A directory page is linked behind the tail.
    HnswDirLink,
    /// A node entry becomes live.
    HnswPublishLive,
}

/// The kind of a payload.
pub open spec fn kind_of(p: PayloadView) -> WalRecordType {
    match p {
        Payload::FullPageImage { .. } => WalRecordType::FullPageImage,
        Payload::NodeInit { .. } => WalRecordType::HnswNodeInit,
        Payload::SetNeighbors { .. } => WalRecordType::HnswSetNeighbors,
        Payload::MetaUpdate { .. } => WalRecordType::HnswMetaUpdate,
        Payload::NodeTombstone { .. } => WalRecordType::HnswNodeTombstone,
        Payload::DirAppend { .. } => WalRecordType::HnswDirAppend,
        Payload::DirLink { .. } => WalRecordType::HnswDirLink,
        Payload::PublishLive { .. } => WalRecordType::HnswPublishLive,
    }
}

/// What makes a record or a page inconsistent.
#[derive(Debug, Clone, Copy)]
#[allow(inconsistent_fields)]
pub enum RedoFault {
    /// The record belongs to a transaction.
    Transactional { txn: u64 },
    /// The record is not of the handler's kind.
    Kind { expected: WalRecordType },
    /// The record names a page of another type.
    PageType { what: &'static str, actual: u16, expected: u16 },
    /// The record names one page as meta page and as node page.
    SamePage { what: &'static str, page: u64 },
    /// No draw can give the record's level.
    MaxLevel { max_level: u8, m: u16, l_max: u8 },
    /// The entry to mark deleted is not live.
    NotLive,
    /// The record names one page as directory page and as node page.
    SelfTarget,
    /// The record publishes a slot without an entry.
    EmptySlot,
    /// The tail already has a successor.
    NextSet,
    /// The record links a page to itself.
    SelfLink,
    /// The tail is not full.
    TailCount { count: u32 },
    /// The tail's ordinal has no successor.
    OrdinalMax,
    /// The linked page does not continue the ordinals.
    Ordinal { have: u64, expected: u64 },
    /// The record is invalid or cannot be applied.
    Refused(HnswError),
}

impl RedoFault {
    /// The pieces of this fault's text.
    pub open spec fn parts(self) -> Seq<Piece> {
        match self {
            RedoFault::Transactional { txn } => seq![
                Piece::Lit("hnsw redo: HNSW record carries txn_id TxnId("),
                Piece::Num(txn),
                Piece::Lit(
                    ") — index records are utility operations and must be non-transactional",
                ),
            ],
            RedoFault::Kind { .. } => seq![
                Piece::Lit("hnsw redo: the record is not of the handler's kind"),
            ],
            RedoFault::PageType { what, actual, expected } => seq![
                Piece::Lit("hnsw redo: "),
                Piece::Lit(what),
                Piece::Lit(" record targets a page of type "),
                Piece::Num(actual as u64),
                Piece::Lit(", expected "),
                Piece::Num(expected as u64),
            ],
            RedoFault::SamePage { what, page } => seq![
                Piece::Lit("hnsw redo: "),
                Piece::Lit(what),
                Piece::Lit(" meta_page_id == page_id "),
                Piece::Num(page),
                Piece::Lit(" (a page cannot be both meta and node)"),
            ],
            RedoFault::MaxLevel { max_level, m, l_max } => seq![
                Piece::Lit("hnsw redo: HnswMetaUpdate max_level "),
                Piece::Num(max_level as u64),
                Piece::Lit(" > l_max(m = "),
                Piece::Num(m as u64),
                Piece::Lit(") = "),
                Piece::Num(l_max as u64),
                Piece::Lit(" (no level draw can produce it)"),
            ],
            RedoFault::NotLive => seq![
                Piece::Lit("hnsw redo: HnswNodeTombstone target entry is not LIVE"),
            ],
            RedoFault::SelfTarget => seq![
                Piece::Lit(
                    "hnsw redo: HnswDirAppend target_page == dir_tail_page (a page cannot be both directory and node)",
                ),
            ],
            RedoFault::EmptySlot => seq![
                Piece::Lit(
                    "hnsw redo: HnswDirAppend target slot is empty — NodeInit must precede",
                ),
            ],
            RedoFault::NextSet => seq![
                Piece::Lit("hnsw redo: HnswDirLink on a tail whose next pointer is already set"),
            ],
            RedoFault::SelfLink => seq![
                Piece::Lit("hnsw redo: HnswDirLink next_page == old_tail_page (self-link)"),
            ],
            RedoFault::TailCount { count } => seq![
                Piece::Lit("hnsw redo: HnswDirLink old tail has count "),
                Piece::Num(count as u64),
                Piece::Lit(", expected exactly 813 (link only when the tail is full)"),
            ],
            RedoFault::OrdinalMax => seq![
                Piece::Lit(
                    "hnsw redo: HnswDirLink old-tail ordinal u64::MAX cannot have a successor",
                ),
            ],
            RedoFault::Ordinal { have, expected } => seq![
                Piece::Lit("hnsw redo: HnswDirLink target ordinal "),
                Piece::Num(have),
                Piece::Lit(" != old-tail ordinal + 1 ("),
                Piece::Num(expected),
                Piece::Lit(")"),
            ],
            RedoFault::Refused(e) => seq![Piece::Lit("hnsw redo: ")] + e.parts(),
        }
    }

    /// The pieces of this fault's text.
    pub fn pieces(&self) -> (r: Vec<Piece>)
        ensures
            r@ == self.parts(),
    {
        let r: Vec<Piece> = match *self {
            RedoFault::Transactional { txn } => vec![
                Piece::Lit("hnsw redo: HNSW record carries txn_id TxnId("),
                Piece::Num(txn),
                Piece::Lit(
                    ") — index records are utility operations and must be non-transactional",
                ),
            ],
            RedoFault::Kind { .. } => vec![
                Piece::Lit("hnsw redo: the record is not of the handler's kind"),
            ],
            RedoFault::PageType { what, actual, expected } => vec![
                Piece::Lit("hnsw redo: "),
                Piece::Lit(what),
                Piece::Lit(" record targets a page of type "),
                Piece::Num(actual as u64),
                Piece::Lit(", expected "),
                Piece::Num(expected as u64),
            ],
            RedoFault::SamePage { what, page } => vec![
                Piece::Lit("hnsw redo: "),
                Piece::Lit(what),
                Piece::Lit(" meta_page_id == page_id "),
                Piece::Num(page),
                Piece::Lit(" (a page cannot be both meta and node)"),
            ],
            RedoFault::MaxLevel { max_level, m, l_max } => vec![
                Piece::Lit("hnsw redo: HnswMetaUpdate max_level "),
                Piece::Num(max_level as u64),
                Piece::Lit(" > l_max(m = "),
                Piece::Num(m as u64),
                Piece::Lit(") = "),
                Piece::Num(l_max as u64),
                Piece::Lit(" (no level draw can produce it)"),
            ],
            RedoFault::NotLive => vec![
                Piece::Lit("hnsw redo: HnswNodeTombstone target entry is not LIVE"),
            ],
            RedoFault::SelfTarget => vec![
                Piece::Lit(
                    "hnsw redo: HnswDirAppend target_page == dir_tail_page (a page cannot be both directory and node)",
                ),
            ],
            RedoFault::EmptySlot => vec![
                Piece::Lit(
                    "hnsw redo: HnswDirAppend target slot is empty — NodeInit must precede",
                ),
            ],
            RedoFault::NextSet => vec![
                Piece::Lit("hnsw redo: HnswDirLink on a tail whose next pointer is already set"),
            ],
            RedoFault::SelfLink => vec![
                Piece::Lit("hnsw redo: HnswDirLink next_page == old_tail_page (self-link)"),
            ],
            RedoFault::TailCount { count } => vec![
                Piece::Lit("hnsw redo: HnswDirLink old tail has count "),
                Piece::Num(count as u64),
                Piece::Lit(", expected exactly 813 (link only when the tail is full)"),
            ],
            RedoFault::OrdinalMax => vec![
                Piece::Lit(
                    "hnsw redo: HnswDirLink old-tail ordinal u64::MAX cannot have a successor",
                ),
            ],
            RedoFault::Ordinal { have, expected } => vec![
                Piece::Lit("hnsw redo: HnswDirLink target ordinal "),
                Piece::Num(have),
                Piece::Lit(" != old-tail ordinal + 1 ("),
                Piece::Num(expected),
                Piece::Lit(")"),
            ],
            RedoFault::Refused(e) => text::joined(vec![Piece::Lit("hnsw redo: ")], e.pieces()),
        };
        assert(r@ =~= self.parts());
        r
    }
}

/// Why a record was not replayed.
#[derive(Debug, Clone, Copy)]
pub enum StorageError {
    /// The page cannot take the record.
    InvalidOperation(Reason),
    /// The record and the stored pages are inconsistent.
    MetadataCorrupted(RedoFault),
    /// The page store could not serve a request.
    Page(StorageFault),
}

impl StorageError {
    /// The pieces of the error's text.
    pub open spec fn parts(self) -> Seq<Piece> {
        match self {
            StorageError::InvalidOperation(r) => r.parts(),
            StorageError::MetadataCorrupted(f) => f.parts(),
            StorageError::Page(f) => f.parts(),
        }
    }

    /// The error in words.
    pub fn to_string(&self) -> (r: String)
        ensures
            r@ == text::text_of(self.parts()),
    {
        let p: Vec<Piece> = match *self {
            StorageError::InvalidOperation(r) => r.pieces(),
            StorageError::MetadataCorrupted(f) => f.pieces(),
            StorageError::Page(f) => f.pieces(),
        };
        text::render(&p)
    }
}

/// An error of the access method as replay reports it: a page that is full
/// stays what it is, anything else is an inconsistency on disk.
pub open spec fn refused(e: HnswError) -> StorageError {
    match e {
        HnswError::InvalidOperation(r) => StorageError::InvalidOperation(r),
        other => StorageError::MetadataCorrupted(RedoFault::Refused(other)),
    }
}

/// An error of the access method as replay reports it.
fn to_storage(e: HnswError) -> (r: StorageError)
    ensures
        r == refused(e),
{
    match e {
        HnswError::InvalidOperation(r) => StorageError::InvalidOperation(r),
        other => StorageError::MetadataCorrupted(RedoFault::Refused(other)),
    }
}

/// The error for an inconsistency.
pub open spec fn inconsistent(f: RedoFault) -> StorageError {
    StorageError::MetadataCorrupted(f)
}

// ---------------------------------------------------------------------
// What replay does.
// ---------------------------------------------------------------------

/// The page with the larger of its log position and `lsn`.
pub open spec fn stamped(p: Seq<u8>, lsn: Lsn) -> Seq<u8> {
    if storage::pd_lsn(p) < lsn.0 {
        storage::with_lsn(p, lsn)
    } else {
        p
    }
}

/// The frame of every handler: the page `id` must be there and have the type
/// `tag`; one that already shows the record stays; else it becomes `post`,
/// with the record's position.
pub open spec fn replayed_page(
    pages: Seq<Seq<u8>>,
    id: PageId,
    tag: u16,
    what: &'static str,
    lsn: Lsn,
    post: Result<Seq<u8>, StorageError>,
) -> Result<Seq<Seq<u8>>, StorageError> {
    match storage::fetched(pages, id) {
        Err(f) => Err(StorageError::Page(f)),
        Ok(p) => if storage::pd_flags(p) != tag {
            Err(
                inconsistent(
                    RedoFault::PageType { what, actual: storage::pd_flags(p), expected: tag },
                ),
            )
        } else if storage::pd_lsn(p) >= lsn.0 {
            Ok(pages)
        } else {
            match post {
                Err(e) => Err(e),
                Ok(q) => Ok(pages.update(id.0 as int, stamped(q, lsn))),
            }
        },
    }
}

/// The parameters on the meta page `meta_id`, which is not the page `id`.
pub open spec fn meta_beside(
    pages: Seq<Seq<u8>>,
    meta_id: PageId,
    id: PageId,
    what: &'static str,
) -> Result<MetaView, StorageError> {
    if meta_id == id {
        Err(inconsistent(RedoFault::SamePage { what, page: id.0 }))
    } else {
        match storage::fetched(pages, meta_id) {
            Err(f) => Err(StorageError::Page(f)),
            Ok(p) => match meta::meta_of(p) {
                Err(e) => Err(refused(e)),
                Ok(q) => Ok(MetaView::spec_of(q)),
            },
        }
    }
}

/// A page as the access method leaves it, or its error as replay reports it.
pub open spec fn lifted(r: Result<Seq<u8>, HnswError>) -> Result<Seq<u8>, StorageError> {
    match r {
        Err(e) => Err(refused(e)),
        Ok(q) => Ok(q),
    }
}

/// The node page `p` with the entry that a node-init record creates.
pub open spec fn node_init_post(
    p: Seq<u8>,
    view: Result<MetaView, StorageError>,
    slot: u16,
    level: u8,
    dim: u16,
    vector: Seq<u32>,
) -> Result<Seq<u8>, StorageError> {
    match view {
        Err(e) => Err(e),
        Ok(v) => match validate::node_init_check(v, dim, level, vector) {
            Err(e) => Err(refused(e)),
            Ok(_) => lifted(apply::node_applied(p, slot, level, v.geometry(), vector)),
        },
    }
}

/// The node page `p` with the list that a set-neighbors record holds.
pub open spec fn set_neighbors_post(
    p: Seq<u8>,
    view: Result<MetaView, StorageError>,
    slot: u16,
    node_id: u32,
    level: u8,
    neighbors: Seq<u32>,
) -> Result<Seq<u8>, StorageError> {
    match view {
        Err(e) => Err(e),
        Ok(v) => match apply::state_of(p, slot, v.dim, "entry_top_level") {
            Err(e) => Err(refused(e)),
            Ok(b) => match validate::set_neighbors_check(
                v,
                node_id,
                level,
                neighbors.len() as u16,
                neighbors,
                node::state_top(b),
            ) {
                Err(e) => Err(refused(e)),
                Ok(_) => lifted(apply::neighbors_set(p, slot, v.geometry(), level, neighbors)),
            },
        },
    }
}

/// The meta page `p` with the entry point that a meta-update record holds.
pub open spec fn meta_update_post(p: Seq<u8>, entry_point: u32, max_level: u8) -> Result<
    Seq<u8>,
    StorageError,
> {
    match meta::meta_of(p) {
        Err(e) => Err(refused(e)),
        Ok(q) => {
            let l_max = rng::top_level(q.m as nat) as u8;
            if max_level > l_max {
                Err(inconsistent(RedoFault::MaxLevel { max_level, m: q.m, l_max }))
            } else {
                Ok(meta::meta_applied(p, entry_point, max_level))
            }
        },
    }
}

/// The node page `p` with the entry of `slot` marked deleted.
pub open spec fn tombstone_post(
    p: Seq<u8>,
    view: Result<MetaView, StorageError>,
    slot: u16,
    dim: u16,
) -> Result<Seq<u8>, StorageError> {
    match view {
        Err(e) => Err(e),
        Ok(v) => match validate::state_dim_check(v, dim, "NodeTombstone") {
            Err(e) => Err(refused(e)),
            Ok(_) => match apply::state_of(p, slot, dim, "entry_is_live") {
                Err(e) => Err(refused(e)),
                Ok(b) => if !node::state_live(b) {
                    Err(inconsistent(RedoFault::NotLive))
                } else {
                    lifted(apply::tombstone_applied(p, slot, dim))
                },
            },
        },
    }
}

/// The directory page `p` with the place that a dir-append record publishes.
pub open spec fn dir_append_post(
    pages: Seq<Seq<u8>>,
    p: Seq<u8>,
    tail: PageId,
    node_id: u32,
    target_page: PageId,
    target_slot: u16,
) -> Result<Seq<u8>, StorageError> {
    if target_page == tail {
        Err(inconsistent(RedoFault::SelfTarget))
    } else {
        match storage::fetched(pages, target_page) {
            Err(f) => Err(StorageError::Page(f)),
            Ok(t) => if storage::pd_flags(t) != PAGE_TYPE_NODE {
                Err(
                    inconsistent(
                        RedoFault::PageType {
                            what: "HnswDirAppend target",
                            actual: storage::pd_flags(t),
                            expected: PAGE_TYPE_NODE,
                        },
                    ),
                )
            } else if apply::lp(t, target_slot) is None {
                Err(inconsistent(RedoFault::EmptySlot))
            } else {
                match apply::dir_appended(p, node_id, target_page, target_slot) {
                    Err(e) => Err(refused(e)),
                    Ok((_, q)) => Ok(q),
                }
            },
        }
    }
}

/// The directory page `p` with the link that a dir-link record makes.
pub open spec fn dir_link_post(
    pages: Seq<Seq<u8>>,
    p: Seq<u8>,
    tail: PageId,
    next_page: PageId,
) -> Result<Seq<u8>, StorageError> {
    let ordinal = page::spec_dir_ordinal(p);
    if page::spec_dir_next(p).0 != storage::INVALID_PAGE {
        Err(inconsistent(RedoFault::NextSet))
    } else if next_page == tail {
        Err(inconsistent(RedoFault::SelfLink))
    } else if page::spec_dir_count(p) != DIR_ENTRIES_PER_PAGE {
        Err(inconsistent(RedoFault::TailCount { count: page::spec_dir_count(p) }))
    } else {
        match storage::fetched(pages, next_page) {
            Err(f) => Err(StorageError::Page(f)),
            Ok(n) => if storage::pd_flags(n) != PAGE_TYPE_DIR {
                Err(
                    inconsistent(
                        RedoFault::PageType {
                            what: "HnswDirLink target",
                            actual: storage::pd_flags(n),
                            expected: PAGE_TYPE_DIR,
                        },
                    ),
                )
            } else if ordinal == u64::MAX {
                Err(inconsistent(RedoFault::OrdinalMax))
            } else if page::spec_dir_ordinal(n) != ordinal + 1 {
                Err(
                    inconsistent(
                        RedoFault::Ordinal {
                            have: page::spec_dir_ordinal(n),
                            expected: (ordinal + 1) as u64,
                        },
                    ),
                )
            } else {
                Ok(apply::dir_linked(p, next_page))
            },
        }
    }
}

/// The node page `p` with the entry of `slot` live.
pub open spec fn publish_live_post(
    p: Seq<u8>,
    view: Result<MetaView, StorageError>,
    slot: u16,
    dim: u16,
) -> Result<Seq<u8>, StorageError> {
    match view {
        Err(e) => Err(e),
        Ok(v) => match validate::state_dim_check(v, dim, "PublishLive") {
            Err(e) => Err(refused(e)),
            Ok(_) => match apply::state_of(p, slot, dim, "entry_top_level") {
                Err(e) => Err(refused(e)),
                Ok(_) => lifted(apply::live_published(p, slot, dim)),
            },
        },
    }
}

/// The page that a record changes, its type and the record's name.
pub open spec fn target_of(p: PayloadView) -> (PageId, u16, &'static str) {
    match p {
        Payload::FullPageImage { page_id, .. } => (page_id, PAGE_TYPE_NODE, "FullPageImage"),
        Payload::NodeInit { page_id, .. } => (page_id, PAGE_TYPE_NODE, "HnswNodeInit"),
        Payload::SetNeighbors { page_id, .. } => (page_id, PAGE_TYPE_NODE, "HnswSetNeighbors"),
        Payload::MetaUpdate { meta_page_id, .. } => (
            meta_page_id,
            PAGE_TYPE_META,
            "HnswMetaUpdate",
        ),
        Payload::NodeTombstone { page_id, .. } => (page_id, PAGE_TYPE_NODE, "HnswNodeTombstone"),
        Payload::DirAppend { dir_tail_page, .. } => (
            dir_tail_page,
            PAGE_TYPE_DIR,
            "HnswDirAppend",
        ),
        Payload::DirLink { old_tail_page, .. } => (old_tail_page, PAGE_TYPE_DIR, "HnswDirLink"),
        Payload::PublishLive { page_id, .. } => (page_id, PAGE_TYPE_NODE, "HnswPublishLive"),
    }
}

/// The page that a record changes, as the record leaves it.
#[verifier::opaque]
pub open spec fn post_image(pages: Seq<Seq<u8>>, payload: PayloadView) -> Result<
    Seq<u8>,
    StorageError,
> {
    let (id, tag, what) = target_of(payload);
    let p = pages[id.0 as int];
    match payload {
        Payload::FullPageImage { .. } => Ok(p),
        Payload::NodeInit { meta_page_id, page_id, slot_id, node_id, level, dim, vector } =>
            node_init_post(
                p,
                meta_beside(pages, meta_page_id, id, what),
                slot_id,
                level,
                dim,
                vector,
            ),
        Payload::SetNeighbors { meta_page_id, page_id, slot_id, node_id, level, neighbors } =>
            set_neighbors_post(
                p,
                meta_beside(pages, meta_page_id, id, what),
                slot_id,
                node_id,
                level,
                neighbors,
            ),
        Payload::MetaUpdate { meta_page_id, entry_point, max_level } => meta_update_post(
            p,
            entry_point,
            max_level,
        ),
        Payload::NodeTombstone { meta_page_id, page_id, slot_id, node_id, dim } => tombstone_post(
            p,
            meta_beside(pages, meta_page_id, id, what),
            slot_id,
            dim,
        ),
        Payload::DirAppend { dir_tail_page, node_id, target_page, target_slot } => dir_append_post(
            pages,
            p,
            id,
            node_id,
            target_page,
            target_slot,
        ),
        Payload::DirLink { old_tail_page, next_page } => dir_link_post(pages, p, id, next_page),
        Payload::PublishLive { meta_page_id, page_id, slot_id, node_id, dim } =>
            publish_live_post(p, meta_beside(pages, meta_page_id, id, what), slot_id, dim),
    }
}

/// The pages that the handler for `kind` leaves.
pub open spec fn redone(kind: WalRecordType, pages: Seq<Seq<u8>>, r: RecordView) -> Result<
    Seq<Seq<u8>>,
    StorageError,
> {
    let (id, tag, what) = target_of(r.payload);
    if r.txn_id.0 != storage::INVALID_TXN {
        Err(inconsistent(RedoFault::Transactional { txn: r.txn_id.0 }))
    } else if kind_of(r.payload) != kind {
        Err(inconsistent(RedoFault::Kind { expected: kind }))
    } else {
        replayed_page(pages, id, tag, what, r.lsn, post_image(pages, r.payload))
    }
}

// ---------------------------------------------------------------------
// The parts of a handler.
// ---------------------------------------------------------------------

/// Refuses a record that belongs to a transaction.
fn require_utility_txn(record: &WalRecord) -> (r: Result<(), StorageError>)
    ensures
        r == (if record.txn_id.0 != storage::INVALID_TXN {
            Err::<(), StorageError>(
                inconsistent(RedoFault::Transactional { txn: record.txn_id.0 }),
            )
        } else {
            Ok(())
        }),
{
    if record.txn_id.0 != TxnId::invalid().0 {
        return Err(
            StorageError::MetadataCorrupted(RedoFault::Transactional { txn: record.txn_id.0 }),
        );
    }
    Ok(())
}

/// Refuses a page that is not of the expected type.
fn require_type(p: &Page, expected: u16, what: &'static str) -> (r: Result<(), StorageError>)
    ensures
        r == (if storage::pd_flags(p@) != expected {
            Err::<(), StorageError>(
                inconsistent(
                    RedoFault::PageType { what, actual: storage::pd_flags(p@), expected },
                ),
            )
        } else {
            Ok(())
        }),
{
    let actual: u16 = page::page_type(p);
    if actual != expected {
        return Err(
            StorageError::MetadataCorrupted(RedoFault::PageType { what, actual, expected }),
        );
    }
    Ok(())
}

/// Whether the page already shows the record at `lsn`.
fn already_applied(p: &Page, lsn: Lsn) -> (r: bool)
    ensures
        r == (storage::pd_lsn(p@) >= lsn.0),
{
    storage::page_pd_lsn(p).0 >= lsn.0
}

/// Gives the page the larger of its log position and `lsn`.
fn stamp_pd_lsn(p: &mut Page, lsn: Lsn)
    ensures
        final(p)@ == stamped(old(p)@, lsn),
{
    if storage::page_pd_lsn(p).0 < lsn.0 {
        storage::set_page_pd_lsn(p, lsn);
    }
}

/// The page that a record is to change, unless it already shows the record.
fn pending(store: &PageStore, id: PageId, tag: u16, what: &'static str, lsn: Lsn) -> (r: Result<
    Option<Page>,
    StorageError,
>)
    ensures
        match storage::fetched(store@, id) {
            Err(f) => r == Err::<Option<Page>, StorageError>(StorageError::Page(f)),
            Ok(p) => if storage::pd_flags(p) != tag {
                r == Err::<Option<Page>, StorageError>(
                    inconsistent(
                        RedoFault::PageType { what, actual: storage::pd_flags(p), expected: tag },
                    ),
                )
            } else if storage::pd_lsn(p) >= lsn.0 {
                r == Ok::<Option<Page>, StorageError>(None)
            } else {
                r matches Ok(Some(q)) && q@ == p
            },
        },
{
    let p: Page = match store.pin(id) {
        Err(f) => {
            return Err(StorageError::Page(f));
        },
        Ok(p) => p,
    };
    match require_type(&p, tag, what) {
        Err(e) => {
            return Err(e);
        },
        Ok(_) => {},
    }
    if already_applied(&p, lsn) {
        return Ok(None);
    }
    Ok(Some(p))
}

/// Puts a changed page back, with the record's position.
fn settle(store: &mut PageStore, id: PageId, p: Page, lsn: Lsn)
    requires
        id.0 < old(store)@.len(),
    ensures
        final(store)@ == old(store)@.update(id.0 as int, stamped(p@, lsn)),
{
    let mut q: Page = p;
    stamp_pd_lsn(&mut q, lsn);
    store.put(id, q);
}

/// Reads the meta page `meta_id`, which must not be the page `id`: a page is
/// never both.
fn meta_view(store: &PageStore, meta_id: PageId, id: PageId, what: &'static str) -> (r: Result<
    MetaView,
    StorageError,
>)
    ensures
        r == meta_beside(store@, meta_id, id, what),
        r matches Ok(v) ==> v.m >= 2,
{
    if meta_id.0 == id.0 {
        return Err(StorageError::MetadataCorrupted(RedoFault::SamePage { what, page: id.0 }));
    }
    let p: Page = match store.pin(meta_id) {
        Err(f) => {
            return Err(StorageError::Page(f));
        },
        Ok(p) => p,
    };
    match meta::read_meta(&p) {
        Err(e) => Err(to_storage(e)),
        Ok(q) => {
            proof {
                meta::lemma_read_meta_is_valid(p@);
            }
            Ok(MetaView::of(&q))
        },
    }
}

// ---------------------------------------------------------------------
// The handlers.
// ---------------------------------------------------------------------

/// Replays node-init records: validates the vector and the level against the
/// meta page, then creates the entry, or writes it again where it has not
/// become live.
#[derive(Debug, Clone, Copy)]
pub struct NodeInitRedo;

impl NodeInitRedo {
    /// The kind that this handler replays.
    pub fn kind(&self) -> (k: WalRecordType)
        ensures
            k == WalRecordType::HnswNodeInit,
    {
        WalRecordType::HnswNodeInit
    }

    /// Replays a record.
    pub fn apply(&self, record: &WalRecord, store: &mut PageStore) -> (r: Result<(), StorageError>)
        ensures
            match redone(WalRecordType::HnswNodeInit, old(store)@, record@) {
                Ok(pages) => r == Ok::<(), StorageError>(()) && final(store)@ == pages,
                Err(e) => r == Err::<(), StorageError>(e) && final(store)@ == old(store)@,
            },
    {
        proof {
            reveal(post_image);
        }
        match require_utility_txn(record) {
            Err(e) => {
                return Err(e);
            },
            Ok(_) => {},
        }
        match &record.payload {
            Payload::NodeInit { meta_page_id, page_id, slot_id, node_id, level, dim, vector } => {
                let what: &'static str = "HnswNodeInit";
                let mut p: Page = match pending(store, *page_id, PAGE_TYPE_NODE, what, record.lsn) {
                    Err(e) => {
                        return Err(e);
                    },
                    Ok(None) => {
                        return Ok(());
                    },
                    Ok(Some(p)) => p,
                };
                let view: MetaView = match meta_view(store, *meta_page_id, *page_id, what) {
                    Err(e) => {
                        return Err(e);
                    },
                    Ok(v) => v,
                };
                match validate::validate_node_init(&view, *dim, *level, vector) {
                    Err(e) => {
                        return Err(to_storage(e));
                    },
                    Ok(_) => {},
                }
                let geo: NodeGeometry = view.node_geometry();
                match apply::apply_node_at(&mut p, *slot_id, *node_id, *level, geo, vector) {
                    Err(e) => {
                        return Err(to_storage(e));
                    },
                    Ok(_) => {},
                }
                settle(store, *page_id, p, record.lsn);
                Ok(())
            },
            _ => Err(
                StorageError::MetadataCorrupted(
                    RedoFault::Kind { expected: WalRecordType::HnswNodeInit },
                ),
            ),
        }
    }
}

/// Replays set-neighbors records: the entry must exist, the list must be
/// valid for it, and then replaces the level's list.
#[derive(Debug, Clone, Copy)]
pub struct SetNeighborsRedo;

impl SetNeighborsRedo {
    /// The kind that this handler replays.
    pub fn kind(&self) -> (k: WalRecordType)
        ensures
            k == WalRecordType::HnswSetNeighbors,
    {
        WalRecordType::HnswSetNeighbors
    }

    /// Replays a record.
    pub fn apply(&self, record: &WalRecord, store: &mut PageStore) -> (r: Result<(), StorageError>)
        ensures
            match redone(WalRecordType::HnswSetNeighbors, old(store)@, record@) {
                Ok(pages) => r == Ok::<(), StorageError>(()) && final(store)@ == pages,
                Err(e) => r == Err::<(), StorageError>(e) && final(store)@ == old(store)@,
            },
    {
        proof {
            reveal(post_image);
        }
        match require_utility_txn(record) {
            Err(e) => {
                return Err(e);
            },
            Ok(_) => {},
        }
        match &record.payload {
            Payload::SetNeighbors { meta_page_id, page_id, slot_id, node_id, level, neighbors } => {
                let what: &'static str = "HnswSetNeighbors";
                let mut p: Page = match pending(store, *page_id, PAGE_TYPE_NODE, what, record.lsn) {
                    Err(e) => {
                        return Err(e);
                    },
                    Ok(None) => {
                        return Ok(());
                    },
                    Ok(Some(p)) => p,
                };
                let view: MetaView = match meta_view(store, *meta_page_id, *page_id, what) {
                    Err(e) => {
                        return Err(e);
                    },
                    Ok(v) => v,
                };
                let top: u8 = match apply::entry_top_level(&p, *slot_id, view.dim) {
                    Err(e) => {
                        return Err(to_storage(e));
                    },
                    Ok(top) => top,
                };
                let count: u16 = neighbors.len() as u16;
                match validate::validate_set_neighbors(
                    &view,
                    *node_id,
                    *level,
                    count,
                    neighbors,
                    top,
                ) {
                    Err(e) => {
                        return Err(to_storage(e));
                    },
                    Ok(_) => {},
                }
                let geo: NodeGeometry = view.node_geometry();
                match apply::set_neighbors(&mut p, *slot_id, geo, *level, neighbors) {
                    Err(e) => {
                        return Err(to_storage(e));
                    },
                    Ok(_) => {},
                }
                settle(store, *page_id, p, record.lsn);
                Ok(())
            },
            _ => Err(
                StorageError::MetadataCorrupted(
                    RedoFault::Kind { expected: WalRecordType::HnswSetNeighbors },
                ),
            ),
        }
    }
}

/// Replays meta-update records: the stored parameters must read and the
/// level must be one that a draw can give, then writes the entry point and
/// its level. Whether the entry point has that level takes the directory,
/// which replay does not walk.
#[derive(Debug, Clone, Copy)]
pub struct MetaUpdateRedo;

impl MetaUpdateRedo {
    /// The kind that this handler replays.
    pub fn kind(&self) -> (k: WalRecordType)
        ensures
            k == WalRecordType::HnswMetaUpdate,
    {
        WalRecordType::HnswMetaUpdate
    }

    /// Replays a record.
    pub fn apply(&self, record: &WalRecord, store: &mut PageStore) -> (r: Result<(), StorageError>)
        ensures
            match redone(WalRecordType::HnswMetaUpdate, old(store)@, record@) {
                Ok(pages) => r == Ok::<(), StorageError>(()) && final(store)@ == pages,
                Err(e) => r == Err::<(), StorageError>(e) && final(store)@ == old(store)@,
            },
    {
        proof {
            reveal(post_image);
        }
        match require_utility_txn(record) {
            Err(e) => {
                return Err(e);
            },
            Ok(_) => {},
        }
        match &record.payload {
            Payload::MetaUpdate { meta_page_id, entry_point, max_level } => {
                let what: &'static str = "HnswMetaUpdate";
                let mut p: Page = match pending(
                    store,
                    *meta_page_id,
                    PAGE_TYPE_META,
                    what,
                    record.lsn,
                ) {
                    Err(e) => {
                        return Err(e);
                    },
                    Ok(None) => {
                        return Ok(());
                    },
                    Ok(Some(p)) => p,
                };
                let m: u16 = match meta::read_meta(&p) {
                    Err(e) => {
                        return Err(to_storage(e));
                    },
                    Ok(current) => {
                        proof {
                            meta::lemma_read_meta_is_valid(p@);
                        }
                        current.m
                    },
                };
                let l_max: u8 = rng::l_max(m);
                if *max_level > l_max {
                    return Err(
                        StorageError::MetadataCorrupted(
                            RedoFault::MaxLevel { max_level: *max_level, m, l_max },
                        ),
                    );
                }
                apply::apply_meta(&mut p, *entry_point, *max_level);
                settle(store, *meta_page_id, p, record.lsn);
                Ok(())
            },
            _ => Err(
                StorageError::MetadataCorrupted(
                    RedoFault::Kind { expected: WalRecordType::HnswMetaUpdate },
                ),
            ),
        }
    }
}

/// Replays tombstone records: the record must locate the state byte where
/// the index has it and the entry must be live, then marks the entry
/// deleted.
#[derive(Debug, Clone, Copy)]
pub struct TombstoneRedo;

impl TombstoneRedo {
    /// The kind that this handler replays.
    pub fn kind(&self) -> (k: WalRecordType)
        ensures
            k == WalRecordType::HnswNodeTombstone,
    {
        WalRecordType::HnswNodeTombstone
    }

    /// Replays a record.
    pub fn apply(&self, record: &WalRecord, store: &mut PageStore) -> (r: Result<(), StorageError>)
        ensures
            match redone(WalRecordType::HnswNodeTombstone, old(store)@, record@) {
                Ok(pages) => r == Ok::<(), StorageError>(()) && final(store)@ == pages,
                Err(e) => r == Err::<(), StorageError>(e) && final(store)@ == old(store)@,
            },
    {
        proof {
            reveal(post_image);
        }
        match require_utility_txn(record) {
            Err(e) => {
                return Err(e);
            },
            Ok(_) => {},
        }
        match &record.payload {
            Payload::NodeTombstone { meta_page_id, page_id, slot_id, node_id: _, dim } => {
                let what: &'static str = "HnswNodeTombstone";
                let mut p: Page = match pending(store, *page_id, PAGE_TYPE_NODE, what, record.lsn) {
                    Err(e) => {
                        return Err(e);
                    },
                    Ok(None) => {
                        return Ok(());
                    },
                    Ok(Some(p)) => p,
                };
                let view: MetaView = match meta_view(store, *meta_page_id, *page_id, what) {
                    Err(e) => {
                        return Err(e);
                    },
                    Ok(v) => v,
                };
                match validate::validate_state_dim(&view, *dim, "NodeTombstone") {
                    Err(e) => {
                        return Err(to_storage(e));
                    },
                    Ok(_) => {},
                }
                match apply::entry_is_live(&p, *slot_id, *dim) {
                    Err(e) => {
                        return Err(to_storage(e));
                    },
                    Ok(live) => {
                        if !live {
                            return Err(StorageError::MetadataCorrupted(RedoFault::NotLive));
                        }
                    },
                }
                match apply::apply_tombstone(&mut p, *slot_id, *dim) {
                    Err(e) => {
                        return Err(to_storage(e));
                    },
                    Ok(_) => {},
                }
                settle(store, *page_id, p, record.lsn);
                Ok(())
            },
            _ => Err(
                StorageError::MetadataCorrupted(
                    RedoFault::Kind { expected: WalRecordType::HnswNodeTombstone },
                ),
            ),
        }
    }
}

/// Replays dir-append records: the slot that is published must hold an
/// entry, then appends its place at the end of the tail page.
#[derive(Debug, Clone, Copy)]
pub struct DirAppendRedo;

impl DirAppendRedo {
    /// The kind that this handler replays.
    pub fn kind(&self) -> (k: WalRecordType)
        ensures
            k == WalRecordType::HnswDirAppend,
    {
        WalRecordType::HnswDirAppend
    }

    /// Replays a record.
    pub fn apply(&self, record: &WalRecord, store: &mut PageStore) -> (r: Result<(), StorageError>)
        ensures
            match redone(WalRecordType::HnswDirAppend, old(store)@, record@) {
                Ok(pages) => r == Ok::<(), StorageError>(()) && final(store)@ == pages,
                Err(e) => r == Err::<(), StorageError>(e) && final(store)@ == old(store)@,
            },
    {
        proof {
            reveal(post_image);
        }
        match require_utility_txn(record) {
            Err(e) => {
                return Err(e);
            },
            Ok(_) => {},
        }
        match &record.payload {
            Payload::DirAppend { dir_tail_page, node_id, target_page, target_slot } => {
                let what: &'static str = "HnswDirAppend";
                let mut p: Page = match pending(
                    store,
                    *dir_tail_page,
                    PAGE_TYPE_DIR,
                    what,
                    record.lsn,
                ) {
                    Err(e) => {
                        return Err(e);
                    },
                    Ok(None) => {
                        return Ok(());
                    },
                    Ok(Some(p)) => p,
                };
                if target_page.0 == dir_tail_page.0 {
                    return Err(StorageError::MetadataCorrupted(RedoFault::SelfTarget));
                }
                let t: Page = match store.pin(*target_page) {
                    Err(f) => {
                        return Err(StorageError::Page(f));
                    },
                    Ok(t) => t,
                };
                match require_type(&t, PAGE_TYPE_NODE, "HnswDirAppend target") {
                    Err(e) => {
                        return Err(e);
                    },
                    Ok(_) => {},
                }
                if !apply::slot_is_occupied(&t, *target_slot) {
                    return Err(StorageError::MetadataCorrupted(RedoFault::EmptySlot));
                }
                match apply::dir_append(&mut p, *node_id, *target_page, *target_slot) {
                    Err(e) => {
                        return Err(to_storage(e));
                    },
                    Ok(_) => {},
                }
                settle(store, *dir_tail_page, p, record.lsn);
                Ok(())
            },
            _ => Err(
                StorageError::MetadataCorrupted(
                    RedoFault::Kind { expected: WalRecordType::HnswDirAppend },
                ),
            ),
        }
    }
}

/// Replays dir-link records: the old tail must be full and without a
/// successor, and the new page must be the directory page with the next
/// ordinal; then links it.
#[derive(Debug, Clone, Copy)]
pub struct DirLinkRedo;

impl DirLinkRedo {
    /// The kind that this handler replays.
    pub fn kind(&self) -> (k: WalRecordType)
        ensures
            k == WalRecordType::HnswDirLink,
    {
        WalRecordType::HnswDirLink
    }

    /// Replays a record.
    pub fn apply(&self, record: &WalRecord, store: &mut PageStore) -> (r: Result<(), StorageError>)
        ensures
            match redone(WalRecordType::HnswDirLink, old(store)@, record@) {
                Ok(pages) => r == Ok::<(), StorageError>(()) && final(store)@ == pages,
                Err(e) => r == Err::<(), StorageError>(e) && final(store)@ == old(store)@,
            },
    {
        proof {
            reveal(post_image);
        }
        match require_utility_txn(record) {
            Err(e) => {
                return Err(e);
            },
            Ok(_) => {},
        }
        match &record.payload {
            Payload::DirLink { old_tail_page, next_page } => {
                let what: &'static str = "HnswDirLink";
                let mut p: Page = match pending(
                    store,
                    *old_tail_page,
                    PAGE_TYPE_DIR,
                    what,
                    record.lsn,
                ) {
                    Err(e) => {
                        return Err(e);
                    },
                    Ok(None) => {
                        return Ok(());
                    },
                    Ok(Some(p)) => p,
                };
                if page::dir_next(&p).0 != PageId::invalid().0 {
                    return Err(StorageError::MetadataCorrupted(RedoFault::NextSet));
                }
                if next_page.0 == old_tail_page.0 {
                    return Err(StorageError::MetadataCorrupted(RedoFault::SelfLink));
                }
                let count: u32 = page::dir_count(&p);
                if count != DIR_ENTRIES_PER_PAGE {
                    return Err(StorageError::MetadataCorrupted(RedoFault::TailCount { count }));
                }
                let n: Page = match store.pin(*next_page) {
                    Err(f) => {
                        return Err(StorageError::Page(f));
                    },
                    Ok(n) => n,
                };
                match require_type(&n, PAGE_TYPE_DIR, "HnswDirLink target") {
                    Err(e) => {
                        return Err(e);
                    },
                    Ok(_) => {},
                }
                let expected: u64 = match page::dir_ordinal(&p).checked_add(1) {
                    None => {
                        return Err(StorageError::MetadataCorrupted(RedoFault::OrdinalMax));
                    },
                    Some(x) => x,
                };
                let have: u64 = page::dir_ordinal(&n);
                if have != expected {
                    return Err(
                        StorageError::MetadataCorrupted(RedoFault::Ordinal { have, expected }),
                    );
                }
                apply::dir_link(&mut p, *next_page);
                settle(store, *old_tail_page, p, record.lsn);
                Ok(())
            },
            _ => Err(
                StorageError::MetadataCorrupted(
                    RedoFault::Kind { expected: WalRecordType::HnswDirLink },
                ),
            ),
        }
    }
}

/// Replays publish-live records: the record must locate the state byte where
/// the index has it and the entry must exist, then makes the entry live.
#[derive(Debug, Clone, Copy)]
pub struct PublishLiveRedo;

impl PublishLiveRedo {
    /// The kind that this handler replays.
    pub fn kind(&self) -> (k: WalRecordType)
        ensures
            k == WalRecordType::HnswPublishLive,
    {
        WalRecordType::HnswPublishLive
    }

    /// Replays a record.
    pub fn apply(&self, record: &WalRecord, store: &mut PageStore) -> (r: Result<(), StorageError>)
        ensures
            match redone(WalRecordType::HnswPublishLive, old(store)@, record@) {
                Ok(pages) => r == Ok::<(), StorageError>(()) && final(store)@ == pages,
                Err(e) => r == Err::<(), StorageError>(e) && final(store)@ == old(store)@,
            },
    {
        proof {
            reveal(post_image);
        }
        match require_utility_txn(record) {
            Err(e) => {
                return Err(e);
            },
            Ok(_) => {},
        }
        match &record.payload {
            Payload::PublishLive { meta_page_id, page_id, slot_id, node_id: _, dim } => {
                let what: &'static str = "HnswPublishLive";
                let mut p: Page = match pending(store, *page_id, PAGE_TYPE_NODE, what, record.lsn) {
                    Err(e) => {
                        return Err(e);
                    },
                    Ok(None) => {
                        return Ok(());
                    },
                    Ok(Some(p)) => p,
                };
                let view: MetaView = match meta_view(store, *meta_page_id, *page_id, what) {
                    Err(e) => {
                        return Err(e);
                    },
                    Ok(v) => v,
                };
                match validate::validate_state_dim(&view, *dim, "PublishLive") {
                    Err(e) => {
                        return Err(to_storage(e));
                    },
                    Ok(_) => {},
                }
                match apply::entry_top_level(&p, *slot_id, *dim) {
                    Err(e) => {
                        return Err(to_storage(e));
                    },
                    Ok(_) => {},
                }
                match apply::publish_live(&mut p, *slot_id, *dim) {
                    Err(e) => {
                        return Err(to_storage(e));
                    },
                    Ok(_) => {},
                }
                settle(store, *page_id, p, record.lsn);
                Ok(())
            },
            _ => Err(
                StorageError::MetadataCorrupted(
                    RedoFault::Kind { expected: WalRecordType::HnswPublishLive },
                ),
            ),
        }
    }
}

/// A handler of any kind.
#[derive(Debug, Clone, Copy)]
pub enum HnswRedo {
    /// Replays node-init records.
    NodeInit(NodeInitRedo),
    /// Replays set-neighbors records.
    SetNeighbors(SetNeighborsRedo),
    /// Replays meta-update records.
    MetaUpdate(MetaUpdateRedo),
    /// Replays tombstone records.
    Tombstone(TombstoneRedo),
    /// Replays dir-append records.
    DirAppend(DirAppendRedo),
    /// Replays dir-link records.
    DirLink(DirLinkRedo),
    /// Replays publish-live records.
    PublishLive(PublishLiveRedo),
}

impl HnswRedo {
    /// The kind that this handler replays.
    pub open spec fn spec_kind(self) -> WalRecordType {
        match self {
            HnswRedo::NodeInit(_) => WalRecordType::HnswNodeInit,
            HnswRedo::SetNeighbors(_) => WalRecordType::HnswSetNeighbors,
            HnswRedo::MetaUpdate(_) => WalRecordType::HnswMetaUpdate,
            HnswRedo::Tombstone(_) => WalRecordType::HnswNodeTombstone,
            HnswRedo::DirAppend(_) => WalRecordType::HnswDirAppend,
            HnswRedo::DirLink(_) => WalRecordType::HnswDirLink,
            HnswRedo::PublishLive(_) => WalRecordType::HnswPublishLive,
        }
    }

    /// The kind that this handler replays.
    pub fn kind(&self) -> (k: WalRecordType)
        ensures
            k == self.spec_kind(),
    {
        match self {
            HnswRedo::NodeInit(h) => h.kind(),
            HnswRedo::SetNeighbors(h) => h.kind(),
            HnswRedo::MetaUpdate(h) => h.kind(),
            HnswRedo::Tombstone(h) => h.kind(),
            HnswRedo::DirAppend(h) => h.kind(),
            HnswRedo::DirLink(h) => h.kind(),
            HnswRedo::PublishLive(h) => h.kind(),
        }
    }

    /// Replays a record.
    pub fn apply(&self, record: &WalRecord, store: &mut PageStore) -> (r: Result<(), StorageError>)
        ensures
            match redone(self.spec_kind(), old(store)@, record@) {
                Ok(pages) => r == Ok::<(), StorageError>(()) && final(store)@ == pages,
                Err(e) => r == Err::<(), StorageError>(e) && final(store)@ == old(store)@,
            },
    {
        match self {
            HnswRedo::NodeInit(h) => h.apply(record, store),
            HnswRedo::SetNeighbors(h) => h.apply(record, store),
            HnswRedo::MetaUpdate(h) => h.apply(record, store),
            HnswRedo::Tombstone(h) => h.apply(record, store),
            HnswRedo::DirAppend(h) => h.apply(record, store),
            HnswRedo::DirLink(h) => h.apply(record, store),
            HnswRedo::PublishLive(h) => h.apply(record, store),
        }
    }
}

/// The handlers of all kinds of index records.
pub fn hnsw_redo_handlers() -> (r: Vec<HnswRedo>)
    ensures
        r@ == seq![
            HnswRedo::NodeInit(NodeInitRedo),
            HnswRedo::SetNeighbors(SetNeighborsRedo),
            HnswRedo::MetaUpdate(MetaUpdateRedo),
            HnswRedo::Tombstone(TombstoneRedo),
            HnswRedo::DirAppend(DirAppendRedo),
            HnswRedo::DirLink(DirLinkRedo),
            HnswRedo::PublishLive(PublishLiveRedo),
        ],
{
    let r: Vec<HnswRedo> = vec![
        HnswRedo::NodeInit(NodeInitRedo),
        HnswRedo::SetNeighbors(SetNeighborsRedo),
        HnswRedo::MetaUpdate(MetaUpdateRedo),
        HnswRedo::Tombstone(TombstoneRedo),
        HnswRedo::DirAppend(DirAppendRedo),
        HnswRedo::DirLink(DirLinkRedo),
        HnswRedo::PublishLive(PublishLiveRedo),
    ];
    assert(r@ =~= seq![
        HnswRedo::NodeInit(NodeInitRedo),
        HnswRedo::SetNeighbors(SetNeighborsRedo),
        HnswRedo::MetaUpdate(MetaUpdateRedo),
        HnswRedo::Tombstone(TombstoneRedo),
        HnswRedo::DirAppend(DirAppendRedo),
        HnswRedo::DirLink(DirLinkRedo),
        HnswRedo::PublishLive(PublishLiveRedo),
    ]);
    r
}

} // verus!
