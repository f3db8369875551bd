//! What the log is for: its records, replayed over the pages from before an
//! operation, give the pages that the operation left.

use vstd::prelude::*;

use crate::apply;
use crate::dir;
use crate::error::HnswError;
use crate::graph;
use crate::index_laws;
use crate::layout;
use crate::meta;
use crate::meta::MetaParams;
use crate::model;
use crate::model::Disk;
use crate::model::PendingInsert;
use crate::model::ProbeMark;
use crate::model::World;
use crate::page;
use crate::page::PAGE_TYPE_META;
use crate::page::PAGE_TYPE_NODE;
use crate::redo;
use crate::redo::StorageError;
use crate::redo_laws;
use crate::rng;
use crate::soundness;
use crate::storage;
use crate::storage::PageId;
use crate::storage::Payload;
use crate::storage::PayloadView;
use crate::storage::RecordView;
use crate::storage::PAGE_SIZE;
use crate::validate;
use crate::validate::MetaView;

verus! {

// ---------------------------------------------------------------------
// Replaying a log.
// ---------------------------------------------------------------------

/// The pages after a record. An image becomes the page that it is of, at its
/// position; any other record is replayed by the handler of its kind.
pub open spec fn restored(pages: Seq<Seq<u8>>, r: RecordView) -> Result<
    Seq<Seq<u8>>,
    StorageError,
> {
    match r.payload {
        Payload::FullPageImage { page_id, image } => match storage::fetched(pages, page_id) {
            Err(fault) => if page_id.0 == pages.len() {
                Ok(pages.push(storage::with_lsn(image, r.lsn)))
            } else {
                Err(StorageError::Page(fault))
            },
            Ok(p) => if storage::pd_lsn(p) >= r.lsn.0 {
                Ok(pages)
            } else {
                Ok(pages.update(page_id.0 as int, storage::with_lsn(image, r.lsn)))
            },
        },
        _ => redo::redone(redo::kind_of(r.payload), pages, r),
    }
}

/// The pages after the records of `log` from position `from` up to `to`.
pub open spec fn recovered(
    pages: Seq<Seq<u8>>,
    log: Seq<RecordView>,
    from: nat,
    to: nat,
) -> Result<Seq<Seq<u8>>, StorageError>
    decreases to,
{
    if to <= from {
        Ok(pages)
    } else {
        match recovered(pages, log, from, (to - 1) as nat) {
            Err(e) => Err(e),
            Ok(q) => restored(q, log[to - 1]),
        }
    }
}

/// The log of `b` goes on after that of `a`, and its further records,
/// replayed over the pages of `a`, give those of `b`.
pub open spec fn replays(a: Disk, b: Disk) -> bool {
    &&& a.log.len() <= b.log.len()
    &&& b.log.take(a.log.len() as int) == a.log
    &&& recovered(a.pages, b.log, a.log.len(), b.log.len()) == Ok::<Seq<Seq<u8>>, StorageError>(
        b.pages,
    )
}

/// Every page has the size of a page and shows no record that is yet to come.
pub open spec fn within_log(d: Disk) -> bool {
    &&& storage::sized(d.pages)
    &&& forall|i: int|
        0 <= i < d.pages.len() ==> storage::pd_lsn(#[trigger] d.pages[i]) <= 3 * d.log.len()
}

/// Nothing done is replayed by nothing.
pub proof fn lemma_replays_nothing(d: Disk)
    ensures
        replays(d, d),
{
    assert(d.log.take(d.log.len() as int) =~= d.log);
}

/// Logs that agree on a stretch of records are replayed alike there.
pub proof fn lemma_recovered_same(
    pages: Seq<Seq<u8>>,
    a: Seq<RecordView>,
    b: Seq<RecordView>,
    from: nat,
    to: nat,
)
    requires
        forall|i: int| from <= i < to ==> a[i] == b[i],
    ensures
        recovered(pages, a, from, to) == recovered(pages, b, from, to),
    decreases to,
{
    if to > from {
        lemma_recovered_same(pages, a, b, from, (to - 1) as nat);
    }
}

/// A log is replayed in two stretches as it is in one.
proof fn lemma_recovered_in_two(
    pages: Seq<Seq<u8>>,
    log: Seq<RecordView>,
    from: nat,
    mid: nat,
    to: nat,
)
    requires
        from <= mid <= to,
    ensures
        recovered(pages, log, from, mid) matches Ok(q) ==> recovered(pages, log, from, to)
            == recovered(q, log, mid, to),
    decreases to,
{
    if to > mid {
        lemma_recovered_in_two(pages, log, from, mid, (to - 1) as nat);
    }
}

/// What is replayed in two steps is replayed in one.
pub proof fn lemma_replays_in_turn(a: Disk, b: Disk, c: Disk)
    requires
        replays(a, b),
        replays(b, c),
    ensures
        replays(a, c),
{
    let n = a.log.len();
    let m = b.log.len();
    assert forall|i: int| 0 <= i < m implies b.log[i] == c.log[i] by {
        assert(c.log.take(m as int)[i] == c.log[i]);
    }
    lemma_recovered_same(a.pages, b.log, c.log, n, m);
    lemma_recovered_in_two(a.pages, c.log, n, m, c.log.len());
    assert(c.log.take(n as int) =~= b.log.take(n as int));
}

/// A record of the index that is logged and applied is replayed.
pub proof fn lemma_record_replays(
    d: Disk,
    payload: PayloadView,
    encode: &'static str,
    append: &'static str,
    r: Seq<u8>,
)
    requires
        within_log(d),
        !(payload is FullPageImage),
        redo::target_of(payload).0.0 < d.pages.len(),
        storage::pd_flags(d.pages[redo::target_of(payload).0.0 as int]) == redo::target_of(
            payload,
        ).1,
        redo::post_image(d.pages, payload) == Ok::<Seq<u8>, StorageError>(r),
    ensures
        model::logged(d, payload, encode, append) matches (d1, Ok(lsn)) ==> {
            let d2 = model::put(d1, redo::target_of(payload).0, r, lsn);
            &&& replays(d, d2)
            &&& within_log(d2)
        },
{
    if let (d1, Ok(lsn)) = model::logged(d, payload, encode, append) {
        let id = redo::target_of(payload).0;
        let d2 = model::put(d1, id, r, lsn);
        let p = d.pages[id.0 as int];
        let n = d.log.len();
        redo_laws::lemma_post_identity(d.pages, payload);
        assert(p.len() == PAGE_SIZE);
        redo_laws::lemma_identity(p, r);
        layout::lemma_with_lsn(r, lsn);
        assert(storage::pd_lsn(p) <= 3 * n && lsn.0 == 3 * n + 3);
        assert(d2.log.take(n as int) =~= d.log);
        assert(recovered(d.pages, d2.log, n, n) == Ok::<Seq<Seq<u8>>, StorageError>(d.pages));
        assert(restored(d.pages, d2.log[n as int]) == Ok::<Seq<Seq<u8>>, StorageError>(d2.pages));
        assert forall|i: int| 0 <= i < d2.pages.len() implies storage::pd_lsn(
            #[trigger] d2.pages[i],
        ) <= 3 * d2.log.len() && d2.pages[i].len() == PAGE_SIZE by {
            if i != id.0 {
                assert(d2.pages[i] == d.pages[i]);
            }
        }
    }
}

/// A page that is allocated and logged is replayed.
pub proof fn lemma_allocation_replays(d: Disk, image: Seq<u8>, context: &'static str)
    requires
        within_log(d),
        image.len() == PAGE_SIZE,
    ensures
        model::allocated(d, image, context) matches (d1, Ok(_)) ==> replays(d, d1) && within_log(d1),
{
    if let (d1, Ok(id)) = model::allocated(d, image, context) {
        let lsn = storage::next_lsn(d.log);
        let n = d.log.len();
        layout::lemma_with_lsn(image, lsn);
        assert(d1.log.take(n as int) =~= d.log);
        assert(recovered(d.pages, d1.log, n, n) == Ok::<Seq<Seq<u8>>, StorageError>(d.pages));
        assert forall|i: int| 0 <= i < d1.pages.len() implies storage::pd_lsn(
            #[trigger] d1.pages[i],
        ) <= 3 * d1.log.len() && d1.pages[i].len() == PAGE_SIZE by {
            if i < d.pages.len() {
                assert(d1.pages[i] == d.pages[i]);
            }
        }
    }
}

// ---------------------------------------------------------------------
// The steps of an insertion.
// ---------------------------------------------------------------------

/// What the pages of an index hold besides its graph: the meta page, with the
/// parameters.
pub proof fn lemma_meta_there(w: World)
    requires
        index_laws::held(w),
    ensures
        storage::sized(w.disk.pages),
        w.index.meta_page_id.0 < w.disk.pages.len(),
        w.index.meta_page_id.0 != storage::INVALID_PAGE,
        storage::pd_flags(w.disk.pages[w.index.meta_page_id.0 as int]) == PAGE_TYPE_META,
        meta::meta_of(w.disk.pages[w.index.meta_page_id.0 as int]) == Ok::<MetaParams, HnswError>(
            w.index.params,
        ),
        w.index.current_node_page matches Some(id) ==> id.0 < w.disk.pages.len()
            && layout::node_page_ok(w.disk.pages[id.0 as int]),
{
    reveal(index_laws::held);
}

/// A handler finds the parameters beside a node page.
proof fn lemma_meta_beside(w: World, id: PageId, what: &'static str)
    requires
        index_laws::held(w),
        id.0 < w.disk.pages.len(),
        storage::pd_flags(w.disk.pages[id.0 as int]) == PAGE_TYPE_NODE,
    ensures
        redo::meta_beside(w.disk.pages, w.index.meta_page_id, id, what) == Ok::<
            MetaView,
            StorageError,
        >(MetaView::spec_of(w.index.params)),
        MetaView::spec_of(w.index.params).geometry() == model::geometry(w.index.params),
{
    lemma_meta_there(w);
}

/// The first step is replayed.
pub proof fn lemma_node_page_ready_replays(w: World, len: usize)
    requires
        within_log(w.disk),
    ensures
        model::node_page_ready(w, len) matches (w1, Ok(_)) ==> replays(w.disk, w1.disk)
            && within_log(w1.disk),
{
    reveal(model::node_page_ready);
    let (w1, r) = model::node_page_ready(w, len);
    if r is Ok {
        lemma_replays_nothing(w.disk);
        layout::lemma_blank_node_page();
        lemma_allocation_replays(
            w.disk,
            page::blank_page(PAGE_TYPE_NODE),
            "alloc_node_page: allocate",
        );
    }
}

/// Linking a blank page behind a full tail is replayed.
pub proof fn lemma_tail_linked_replays(w: World, next: PageId)
    requires
        index_laws::held(w),
        within_log(w.disk),
        page::spec_dir_count(w.disk.pages[w.index.dir_pages.last().0 as int]) == 813,
        next.0 < w.disk.pages.len(),
        !w.index.dir_pages.contains(next),
        layout::same_past_lsn(
            page::blank_dir_page(w.index.dir_pages.len() as u64),
            w.disk.pages[next.0 as int],
        ),
    ensures
        model::dir_page_linked(
            w,
            w.index.dir_pages.last(),
            w.disk.pages[w.index.dir_pages.last().0 as int],
            next,
        ) matches (w1, Ok(_)) ==> replays(w.disk, w1.disk) && within_log(w1.disk),
{
    let pages = w.disk.pages;
    let dirs = w.index.dir_pages;
    let tail = dirs.last();
    let n = dirs.len() - 1;
    assert(dir_ok(w)) by {
        reveal(index_laws::held);
    }
    soundness::lemma_chain_pages(pages, dirs, n);
    assert(dirs.contains(tail)) by {
        assert(dirs[n] == tail);
    }
    let p = pages[tail.0 as int];
    let image = page::blank_dir_page(dirs.len() as u64);
    page::lemma_blank_dir_page(dirs.len() as u64);
    soundness::lemma_dir_page_same(image, pages[next.0 as int]);
    let payload = Payload::DirLink { old_tail_page: tail, next_page: next };
    let r = apply::dir_linked(p, next);
    assert(redo::post_image(pages, payload) == Ok::<Seq<u8>, StorageError>(r)) by {
        reveal(redo::post_image);
    }
    lemma_record_replays(
        w.disk,
        payload,
        "insert: encode DirLink",
        "insert: WAL append DirLink",
        r,
    );
}

/// The directory of an index is a legal chain.
pub open spec fn dir_ok(w: World) -> bool {
    &&& dir::legal_chain(w.disk.pages, w.index.dir_pages)
    &&& w.index.dir_pages.len() <= u64::MAX
}

/// The second step is replayed.
pub proof fn lemma_dir_tail_ready_replays(w: World)
    requires
        index_laws::held(w),
        within_log(w.disk),
    ensures
        model::dir_tail_ready(w) matches (w1, Ok(_)) ==> replays(w.disk, w1.disk) && within_log(
            w1.disk,
        ),
{
    reveal(model::dir_tail_ready);
    let pages = w.disk.pages;
    let dirs = w.index.dir_pages;
    let tail = dirs.last();
    let (w1, r) = model::dir_tail_ready(w);
    lemma_replays_nothing(w.disk);
    if r is Ok && page::spec_dir_count(pages[tail.0 as int]) == 813 {
        let image = page::blank_dir_page(dirs.len() as u64);
        let context = "alloc_dir_page: allocate";
        page::lemma_blank_dir_page(dirs.len() as u64);
        lemma_allocation_replays(w.disk, image, context);
        index_laws::lemma_page_allocated(w, image, context);
        let (disk, a) = model::allocated(w.disk, image, context);
        let next = a->Ok_0;
        let w2 = World { disk, ..w };
        let w3 = model::marked(w2, ProbeMark::DirPageInit).0;
        index_laws::lemma_held_by_pages(w2, w3);
        index_laws::lemma_fresh_page(w, next);
        lemma_tail_linked_replays(w3, next);
        lemma_replays_in_turn(w.disk, w3.disk, w1.disk);
    }
}

/// The third step is replayed.
pub proof fn lemma_entry_created_replays(
    w: World,
    id: PageId,
    node_id: u32,
    level: u8,
    vector: Seq<u32>,
)
    requires
        index_laws::held(w),
        within_log(w.disk),
        w.index.current_node_page == Some(id),
        level <= rng::top_level(w.index.params.m as nat),
        vector.len() == w.index.params.dim,
        graph::vector_check(w.index.params.metric, vector) is Ok,
    ensures
        model::entry_created(w, id, node_id, level, vector) matches (w1, Ok(_)) ==> replays(
            w.disk,
            w1.disk,
        ) && within_log(w1.disk),
{
    reveal(model::entry_created);
    let (w1, r) = model::entry_created(w, id, node_id, level, vector);
    if let Ok(slot) = r {
        let q = w.index.params;
        let p = w.disk.pages[id.0 as int];
        lemma_meta_there(w);
        lemma_meta_beside(w, id, "HnswNodeInit");
        index_laws::lemma_held(w);
        rng::lemma_top_level_bound(q.m as nat);
        graph::lemma_first_nonfinite(vector);
        let payload = Payload::NodeInit {
            meta_page_id: w.index.meta_page_id,
            page_id: id,
            slot_id: slot,
            node_id,
            level,
            dim: q.dim,
            vector,
        };
        let a = apply::node_applied(p, slot, level, model::geometry(q), vector)->Ok_0;
        assert(validate::node_init_check(MetaView::spec_of(q), q.dim, level, vector) is Ok);
        assert(redo::post_image(w.disk.pages, payload) == Ok::<Seq<u8>, StorageError>(a)) by {
            reveal(redo::post_image);
        }
        lemma_record_replays(
            w.disk,
            payload,
            "insert: encode NodeInit",
            "insert: WAL append NodeInit",
            a,
        );
    }
}

/// The fourth step is replayed.
pub proof fn lemma_place_published_replays(w: World, node_id: u32, id: PageId, slot: u16)
    requires
        index_laws::held(w),
        within_log(w.disk),
        w.index.current_node_page == Some(id),
        layout::slot_bytes(w.disk.pages[id.0 as int], slot) is Some,
    ensures
        model::place_published(w, w.index.dir_pages.last(), node_id, id, slot) matches (w1, Ok(_))
            ==> replays(w.disk, w1.disk) && within_log(w1.disk),
{
    reveal(model::place_published);
    let pages = w.disk.pages;
    let dirs = w.index.dir_pages;
    let tail = dirs.last();
    assert(dir_ok(w)) by {
        reveal(index_laws::held);
    }
    soundness::lemma_chain_pages(pages, dirs, dirs.len() - 1);
    let (w1, r) = model::place_published(w, tail, node_id, id, slot);
    if r is Ok {
        lemma_meta_there(w);
        let p = pages[tail.0 as int];
        let payload = Payload::DirAppend {
            dir_tail_page: tail,
            node_id,
            target_page: id,
            target_slot: slot,
        };
        let a = apply::dir_appended(p, node_id, id, slot)->Ok_0.1;
        assert(redo::post_image(pages, payload) == Ok::<Seq<u8>, StorageError>(a)) by {
            reveal(redo::post_image);
        }
        lemma_record_replays(
            w.disk,
            payload,
            "insert: encode DirAppend",
            "insert: WAL append DirAppend",
            a,
        );
    }
}

/// Writing a list is replayed.
pub proof fn lemma_list_written_replays(
    w: World,
    id: PageId,
    slot: u16,
    owner: u32,
    level: u8,
    list: Seq<u32>,
    contexts: (&'static str, &'static str, &'static str),
    mark: ProbeMark,
)
    requires
        index_laws::held(w),
        within_log(w.disk),
        owner < w.index.hwm,
        (id, slot) == index_laws::place_of(w, owner as int),
        level <= index_laws::graph_of(w)[owner as int].top,
    ensures
        model::list_written(w, id, slot, owner, level, list, contexts, mark) matches (w1, Ok(_))
            ==> replays(w.disk, w1.disk) && within_log(w1.disk),
{
    let (w1, r) = model::list_written(w, id, slot, owner, level, list, contexts, mark);
    if r is Ok {
        let q = w.index.params;
        let p = w.disk.pages[id.0 as int];
        index_laws::lemma_held(w);
        index_laws::lemma_list_written(w, id, slot, owner, level, list, contexts, mark);
        index_laws::lemma_node_there(w, owner as int);
        lemma_meta_beside(w, id, "HnswSetNeighbors");
        layout::lemma_entry_reads(p, slot, model::geometry(q), level);
        reveal(model::list_written);
        let payload = Payload::SetNeighbors {
            meta_page_id: w.index.meta_page_id,
            page_id: id,
            slot_id: slot,
            node_id: owner,
            level,
            neighbors: list,
        };
        let a = apply::neighbors_set(p, slot, model::geometry(q), level, list)->Ok_0;
        assert(validate::set_neighbors_check(
            MetaView::spec_of(q),
            owner,
            level,
            list.len() as u16,
            list,
            index_laws::graph_of(w)[owner as int].top,
        ) is Ok);
        assert(redo::post_image(w.disk.pages, payload) == Ok::<Seq<u8>, StorageError>(a)) by {
            reveal(redo::post_image);
        }
        lemma_record_replays(w.disk, payload, contexts.1, contexts.2, a);
    }
}

/// The seventh step is replayed.
pub proof fn lemma_entry_point_raised_replays(w: World, pending: PendingInsert)
    requires
        index_laws::held(w),
        within_log(w.disk),
        model::pending_ok(w.index, pending),
    ensures
        model::entry_point_raised(w, pending) matches (w1, Ok(_)) ==> replays(w.disk, w1.disk)
            && within_log(w1.disk),
{
    reveal(model::entry_point_raised);
    lemma_replays_nothing(w.disk);
    let (w1, r) = model::entry_point_raised(w, pending);
    if r is Ok && w1 != w {
        lemma_meta_there(w);
        index_laws::lemma_held(w);
        rng::lemma_top_level_bound(w.index.params.m as nat);
        let id = w.index.meta_page_id;
        let payload = Payload::MetaUpdate {
            meta_page_id: id,
            entry_point: pending.node_id.0,
            max_level: pending.level,
        };
        let a = meta::meta_applied(
            w.disk.pages[id.0 as int],
            pending.node_id.0,
            pending.level,
        );
        assert(redo::post_image(w.disk.pages, payload) == Ok::<Seq<u8>, StorageError>(a)) by {
            reveal(redo::post_image);
        }
        lemma_record_replays(
            w.disk,
            payload,
            "insert: encode MetaUpdate",
            "insert: WAL append MetaUpdate",
            a,
        );
    }
}

/// The last step is replayed.
pub proof fn lemma_entry_published_replays(w: World, pending: PendingInsert)
    requires
        index_laws::held(w),
        within_log(w.disk),
        pending.node_id.0 < w.index.hwm,
        (pending.page_id, pending.slot) == index_laws::place_of(w, pending.node_id.0 as int),
    ensures
        model::entry_published(w, pending) matches (w1, Ok(_)) ==> replays(w.disk, w1.disk)
            && within_log(w1.disk),
{
    reveal(model::entry_published);
    let (w1, r) = model::entry_published(w, pending);
    if r is Ok {
        let q = w.index.params;
        let id = pending.page_id;
        let p = w.disk.pages[id.0 as int];
        index_laws::lemma_node_there(w, pending.node_id.0 as int);
        lemma_meta_beside(w, id, "HnswPublishLive");
        layout::lemma_entry_reads(p, pending.slot, model::geometry(q), 0);
        let payload = Payload::PublishLive {
            meta_page_id: w.index.meta_page_id,
            page_id: id,
            slot_id: pending.slot,
            node_id: pending.node_id.0,
            dim: q.dim,
        };
        let a = apply::live_published(p, pending.slot, q.dim)->Ok_0;
        assert(redo::post_image(w.disk.pages, payload) == Ok::<Seq<u8>, StorageError>(a)) by {
            reveal(redo::post_image);
        }
        lemma_record_replays(
            w.disk,
            payload,
            "insert: encode PublishLive",
            "insert: WAL append PublishLive",
            a,
        );
    }
}

} // verus!
