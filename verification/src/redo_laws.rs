//! What replay promises.
//!
//! A record changes one page at most. Once it has been replayed, replaying
//! it again changes nothing, and so for a whole run of records.

use vstd::prelude::*;

use crate::apply;
use crate::bytes;
use crate::entry_laws;
use crate::meta;
use crate::node;
use crate::redo;
use crate::redo::StorageError;
use crate::redo::WalRecordType;
use crate::storage;
use crate::storage::Lsn;
use crate::storage::PageId;
use crate::storage::Payload;
use crate::storage::PayloadView;
use crate::storage::RecordView;
use crate::storage::PAGE_SIZE;

verus! {

/// `q` has the size of `p`, and its log position and type.
pub open spec fn same_identity(p: Seq<u8>, q: Seq<u8>) -> bool {
    &&& q.len() == p.len()
    &&& forall|i: int| 0 <= i < 14 ==> q[i] == p[i]
}

/// A page with the identity of another has its log position and its type.
pub proof fn lemma_identity(p: Seq<u8>, q: Seq<u8>)
    requires
        p.len() == PAGE_SIZE,
        same_identity(p, q),
    ensures
        storage::pd_lsn(q) == storage::pd_lsn(p),
        storage::pd_flags(q) == storage::pd_flags(p),
{
}

/// Creating or overwriting an entry keeps the page's identity.
proof fn lemma_node_applied_identity(
    p: Seq<u8>,
    slot: u16,
    level: u8,
    geo: node::NodeGeometry,
    vector: Seq<u32>,
)
    requires
        p.len() == PAGE_SIZE,
    ensures
        apply::node_applied(p, slot, level, geo, vector) matches Ok(q) ==> same_identity(p, q),
{
    node::lemma_sizes(geo, level);
    if let Ok(q) = apply::node_applied(p, slot, level, geo, vector) {
        let len = geo.size(level);
        assert(apply::fresh_entry(level, vector, len).len() == len);
        if let Some((off, have)) = apply::lp(p, slot) {
            entry_laws::lemma_lp_bounds(p, slot);
        }
        assert(same_identity(p, q));
    }
}

/// Replacing a neighbor list keeps the page's identity.
proof fn lemma_neighbors_set_identity(
    p: Seq<u8>,
    slot: u16,
    geo: node::NodeGeometry,
    level: u8,
    content: Seq<u32>,
)
    requires
        p.len() == PAGE_SIZE,
    ensures
        apply::neighbors_set(p, slot, geo, level, content) matches Ok(q) ==> same_identity(p, q),
{
    node::lemma_sizes(geo, level);
    if let Ok(q) = apply::neighbors_set(p, slot, geo, level, content) {
        entry_laws::lemma_lp_bounds(p, slot);
        let cap = geo.cap(level);
        bytes::lemma_words_le(content);
        assert(apply::region_bytes(content, cap).len() == 2 + 4 * cap);
    }
}

/// Changing a state byte keeps the page's identity.
proof fn lemma_state_changed_identity(
    p: Seq<u8>,
    slot: u16,
    dim: u16,
    what: &'static str,
    f: spec_fn(u8) -> u8,
)
    requires
        p.len() == PAGE_SIZE,
    ensures
        apply::state_changed(p, slot, dim, what, f) matches Ok(q) ==> same_identity(p, q),
{
    if apply::lp(p, slot) is Some {
        entry_laws::lemma_lp_bounds(p, slot);
    }
}

/// Publishing a place keeps the page's identity.
proof fn lemma_dir_appended_identity(
    p: Seq<u8>,
    node_id: u32,
    target_page: PageId,
    target_slot: u16,
)
    requires
        p.len() == PAGE_SIZE,
    ensures
        apply::dir_appended(p, node_id, target_page, target_slot) matches Ok((_, q))
            ==> same_identity(p, q),
{
}

/// The page that a record leaves keeps its identity until it is stamped.
pub proof fn lemma_post_identity(pages: Seq<Seq<u8>>, payload: PayloadView)
    requires
        storage::sized(pages),
        redo::target_of(payload).0.0 < pages.len(),
    ensures
        redo::post_image(pages, payload) matches Ok(q) ==> same_identity(
            pages[redo::target_of(payload).0.0 as int],
            q,
        ),
{
    reveal(redo::post_image);
    let (id, tag, what) = redo::target_of(payload);
    let p = pages[id.0 as int];
    assert(p.len() == PAGE_SIZE);
    match payload {
        Payload::NodeInit { meta_page_id, page_id, slot_id, node_id, level, dim, vector } => {
            if let Ok(v) = redo::meta_beside(pages, meta_page_id, id, what) {
                lemma_node_applied_identity(p, slot_id, level, v.geometry(), vector);
            }
        },
        Payload::SetNeighbors { meta_page_id, page_id, slot_id, node_id, level, neighbors } => {
            if let Ok(v) = redo::meta_beside(pages, meta_page_id, id, what) {
                lemma_neighbors_set_identity(p, slot_id, v.geometry(), level, neighbors);
            }
        },
        Payload::MetaUpdate { meta_page_id, entry_point, max_level } => {
            assert(same_identity(p, meta::meta_applied(p, entry_point, max_level)));
        },
        Payload::NodeTombstone { slot_id, dim, .. } => {
            lemma_state_changed_identity(
                p,
                slot_id,
                dim,
                "apply_tombstone",
                |b: u8| node::tombstone_state(b),
            );
        },
        Payload::DirAppend { dir_tail_page, node_id, target_page, target_slot } => {
            lemma_dir_appended_identity(p, node_id, target_page, target_slot);
        },
        Payload::DirLink { old_tail_page, next_page } => {
            assert(same_identity(p, apply::dir_linked(p, next_page)));
        },
        Payload::PublishLive { slot_id, dim, .. } => {
            lemma_state_changed_identity(
                p,
                slot_id,
                dim,
                "publish_live",
                |b: u8| node::live_state(b),
            );
        },
        _ => {},
    }
}

/// A stamped page shows every record up to its position, and has its old
/// type and size.
proof fn lemma_stamped(p: Seq<u8>, lsn: Lsn)
    requires
        p.len() == PAGE_SIZE,
    ensures
        redo::stamped(p, lsn).len() == PAGE_SIZE,
        storage::pd_lsn(redo::stamped(p, lsn)) >= lsn.0,
        storage::pd_lsn(redo::stamped(p, lsn)) >= storage::pd_lsn(p),
        storage::pd_flags(redo::stamped(p, lsn)) == storage::pd_flags(p),
        forall|i: int| 8 <= i < PAGE_SIZE ==> redo::stamped(p, lsn)[i] == p[i],
{
    bytes::lemma_u64_le(lsn.0);
    bytes::lemma_splice_le64(p, 0, lsn.0);
}

/// The pages show the record: its page is there, has the record's type, and
/// a log position at or past the record's.
pub open spec fn shows(kind: WalRecordType, pages: Seq<Seq<u8>>, r: RecordView) -> bool {
    let (id, tag, what) = redo::target_of(r.payload);
    &&& r.txn_id.0 == storage::INVALID_TXN
    &&& redo::kind_of(r.payload) == kind
    &&& id.0 < pages.len()
    &&& storage::pd_flags(pages[id.0 as int]) == tag
    &&& storage::pd_lsn(pages[id.0 as int]) >= r.lsn.0
}

/// Replay of a record changes no page but the record's, keeps the types of
/// all pages, lowers no log position, and leaves pages that show the record.
pub proof fn lemma_redo_changes_one_page(kind: WalRecordType, pages: Seq<Seq<u8>>, r: RecordView)
    requires
        storage::sized(pages),
    ensures
        redo::redone(kind, pages, r) matches Ok(q) ==> {
            &&& q.len() == pages.len()
            &&& storage::sized(q)
            &&& shows(kind, q, r)
            &&& forall|i: int|
                0 <= i < pages.len() && i != redo::target_of(r.payload).0.0 ==> q[i] == pages[i]
            &&& forall|i: int|
                0 <= i < pages.len() ==> storage::pd_flags(#[trigger] q[i]) == storage::pd_flags(
                    pages[i],
                ) && storage::pd_lsn(q[i]) >= storage::pd_lsn(pages[i])
        },
{
    if let Ok(q) = redo::redone(kind, pages, r) {
        let (id, tag, what) = redo::target_of(r.payload);
        let p = pages[id.0 as int];
        assert(p.len() == PAGE_SIZE);
        if storage::pd_lsn(p) < r.lsn.0 {
            lemma_post_identity(pages, r.payload);
            let post = redo::post_image(pages, r.payload)->Ok_0;
            lemma_identity(p, post);
            lemma_stamped(post, r.lsn);
            assert(q == pages.update(id.0 as int, redo::stamped(post, r.lsn)));
        }
    }
}

/// Replaying a record that the pages show changes nothing; it is not even
/// validated again.
pub proof fn lemma_shown_record_is_skipped(kind: WalRecordType, pages: Seq<Seq<u8>>, r: RecordView)
    requires
        shows(kind, pages, r),
    ensures
        redo::redone(kind, pages, r) == Ok::<Seq<Seq<u8>>, StorageError>(pages),
{
}

/// A record that has been replayed can be replayed again, to the same pages.
pub proof fn lemma_redo_is_idempotent(kind: WalRecordType, pages: Seq<Seq<u8>>, r: RecordView)
    requires
        storage::sized(pages),
    ensures
        redo::redone(kind, pages, r) matches Ok(q) ==> redo::redone(kind, q, r) == Ok::<
            Seq<Seq<u8>>,
            StorageError,
        >(q),
{
    lemma_redo_changes_one_page(kind, pages, r);
    if let Ok(q) = redo::redone(kind, pages, r) {
        lemma_shown_record_is_skipped(kind, q, r);
    }
}

/// The pages after the first `n` of a run of records, each replayed by the
/// handler of its kind.
pub open spec fn replayed(pages: Seq<Seq<u8>>, rs: Seq<RecordView>, n: nat) -> Result<
    Seq<Seq<u8>>,
    StorageError,
>
    decreases n,
{
    if n == 0 {
        Ok(pages)
    } else {
        match replayed(pages, rs, (n - 1) as nat) {
            Err(e) => Err(e),
            Ok(q) => redo::redone(redo::kind_of(rs[n - 1].payload), q, rs[n - 1]),
        }
    }
}

/// After a run the pages show every record of it.
proof fn lemma_replayed_shows(pages: Seq<Seq<u8>>, rs: Seq<RecordView>, n: nat)
    requires
        storage::sized(pages),
        n <= rs.len(),
    ensures
        replayed(pages, rs, n) matches Ok(q) ==> storage::sized(q) && forall|i: int|
            0 <= i < n ==> shows(redo::kind_of(rs[i].payload), q, #[trigger] rs[i]),
    decreases n,
{
    if n > 0 {
        lemma_replayed_shows(pages, rs, (n - 1) as nat);
        if let Ok(before) = replayed(pages, rs, (n - 1) as nat) {
            let r = rs[n - 1];
            lemma_redo_changes_one_page(redo::kind_of(r.payload), before, r);
            if let Ok(q) = replayed(pages, rs, n) {
                assert forall|i: int| 0 <= i < n implies shows(
                    redo::kind_of(rs[i].payload),
                    q,
                    #[trigger] rs[i],
                ) by {
                    if i < n - 1 {
                        let id = redo::target_of(rs[i].payload).0;
                        assert(shows(redo::kind_of(rs[i].payload), before, rs[i]));
                        assert(storage::pd_flags(q[id.0 as int]) == storage::pd_flags(
                            before[id.0 as int],
                        ));
                    }
                }
            }
        }
    }
}

/// A run over pages that show every record of it changes nothing.
proof fn lemma_replayed_skips(pages: Seq<Seq<u8>>, rs: Seq<RecordView>, n: nat)
    requires
        n <= rs.len(),
        forall|i: int|
            0 <= i < n ==> shows(redo::kind_of(rs[i].payload), pages, #[trigger] rs[i]),
    ensures
        replayed(pages, rs, n) == Ok::<Seq<Seq<u8>>, StorageError>(pages),
    decreases n,
{
    if n > 0 {
        lemma_replayed_skips(pages, rs, (n - 1) as nat);
        lemma_shown_record_is_skipped(redo::kind_of(rs[n - 1].payload), pages, rs[n - 1]);
    }
}

/// A run of records that has been replayed can be replayed again, as often
/// as recovery is interrupted, to the same pages.
pub proof fn lemma_replay_is_idempotent(pages: Seq<Seq<u8>>, rs: Seq<RecordView>)
    requires
        storage::sized(pages),
    ensures
        replayed(pages, rs, rs.len()) matches Ok(q) ==> replayed(q, rs, rs.len()) == Ok::<
            Seq<Seq<u8>>,
            StorageError,
        >(q),
{
    lemma_replayed_shows(pages, rs, rs.len());
    if let Ok(q) = replayed(pages, rs, rs.len()) {
        lemma_replayed_skips(q, rs, rs.len());
    }
}

} // verus!
