//! What page images are for: since a checkpoint, no record changes a page
//! that has not been logged whole before.

use vstd::prelude::*;

use crate::apply;
use crate::dir;
use crate::error::HnswError;
use crate::graph::Metric;
use crate::graph::NeighborSelection;
use crate::layout;
use crate::meta;
use crate::meta::ExpectedParams;
use crate::model;
use crate::model::Disk;
use crate::model::LevelChoice;
use crate::model::PendingInsert;
use crate::model::ProbeMark;
use crate::model::World;
use crate::node;
use crate::page;
use crate::page::PAGE_TYPE_META;
use crate::page::PAGE_TYPE_NODE;
use crate::params::HnswParams;
use crate::recovery_laws;
use crate::redo;
use crate::redo::StorageError;
use crate::storage;
use crate::storage::PageId;
use crate::storage::Payload;
use crate::storage::PayloadView;
use crate::storage::PreImageView;
use crate::storage::PAGE_SIZE;

verus! {

// ---------------------------------------------------------------------
// Images and the records that they precede.
// ---------------------------------------------------------------------

/// The image `i` of a disk stands ahead of a record that changes its page, at
/// the position just below the record's.
pub open spec fn image_ahead(d: Disk, i: int) -> bool {
    let image = d.images[i];
    let k = (image.lsn.0 - 2) / 3;
    &&& 0 <= k < d.log.len()
    &&& image.lsn.0 == 3 * k + 2
    &&& redo::target_of(d.log[k].payload).0 == image.page_id
}

/// The image `i` of a disk is one of the page `id` between the checkpoint and
/// the position `lsn`.
pub open spec fn imaged_at(d: Disk, i: int, id: PageId, lsn: int) -> bool {
    &&& 0 <= i < d.images.len()
    &&& d.images[i].page_id == id
    &&& d.checkpoint.0 < d.images[i].lsn.0 < lsn
}

/// The record `k` of a disk holds the whole page `id`, between the checkpoint
/// and the position `lsn`.
pub open spec fn held_at(d: Disk, k: int, id: PageId, lsn: int) -> bool {
    &&& 0 <= k < d.log.len()
    &&& d.log[k].payload is FullPageImage
    &&& redo::target_of(d.log[k].payload).0 == id
    &&& d.checkpoint.0 < d.log[k].lsn.0 < lsn
}

/// The position after the last record.
pub open spec fn end(d: Disk) -> int {
    3 * d.log.len() as int + 1
}

/// Between the checkpoint and the position `lsn` the whole page `id` was
/// logged: as an image, or as a record of its own.
pub open spec fn logged_whole(d: Disk, id: PageId, lsn: int) -> bool {
    ||| exists|i: int| #[trigger] imaged_at(d, i, id, lsn)
    ||| exists|k: int| #[trigger] held_at(d, k, id, lsn)
}

/// What every disk keeps on which a log was begun:
/// - records stand at their positions, and a checkpoint not past the end;
/// - an image stands just ahead of a record that changes its page, and images
///   stand in the order of their positions;
/// - while the log has room, a page that was touched since the checkpoint has
///   been logged whole since then;
/// - a record since the checkpoint changes a page that has been logged whole
///   between the checkpoint and the record.
#[verifier::opaque]
pub open spec fn images_in_place(d: Disk) -> bool {
    &&& d.log.len() <= storage::LOG_CAPACITY
    &&& d.checkpoint.0 <= end(d)
    &&& forall|k: int| 0 <= k < d.log.len() ==> (#[trigger] d.log[k]).lsn.0 == 3 * k + 3
    &&& forall|i: int| 0 <= i < d.images.len() ==> #[trigger] image_ahead(d, i)
    &&& forall|i: int, j: int|
        0 <= i < j < d.images.len() ==> (#[trigger] d.images[i]).lsn.0 < (
        #[trigger] d.images[j]).lsn.0
    &&& d.log.len() < storage::LOG_CAPACITY ==> forall|p: int|
        0 <= p < d.pages.len() && !storage::image_due(d.checkpoint, #[trigger] d.pages[p])
            ==> logged_whole(d, PageId(p as u64), end(d))
    &&& forall|k: int|
        0 <= k < d.log.len() && d.checkpoint.0 < (#[trigger] d.log[k]).lsn.0 && !(
        d.log[k].payload is FullPageImage) ==> logged_whole(
            d,
            redo::target_of(d.log[k].payload).0,
            d.log[k].lsn.0 as int,
        )
}

/// A page that no record has touched since the checkpoint is logged as an
/// image before a record changes it, at a position below the record's and
/// above the checkpoint and all that came before; a page that one has touched
/// is not. The image is the page as the records before it leave it, so a
/// replay that comes by it finds nothing to change but the position. Once
/// changed, the page owes no image until the next checkpoint.
pub proof fn lemma_image_goes_ahead(
    a: Disk,
    d: Disk,
    payload: PayloadView,
    encode: &'static str,
    append: &'static str,
    r: Seq<u8>,
)
    requires
        d.checkpoint.0 <= 3 * d.log.len() + 1,
        redo::target_of(payload).0.0 < d.pages.len(),
        r.len() == PAGE_SIZE,
    ensures
        model::logged(d, payload, encode, append) matches (d1, Ok(lsn)) ==> {
            let id = redo::target_of(payload).0;
            let p = d.pages[id.0 as int];
            let d2 = model::put(d1, id, r, lsn);
            let image = PreImageView { lsn: storage::image_lsn(d.log), page_id: id, image: p };
            &&& d2.images == if storage::pd_lsn(p) < d.checkpoint.0 {
                d.images.push(image)
            } else {
                d.images
            }
            &&& image.lsn.0 == lsn.0 - 1
            &&& d.checkpoint.0 < image.lsn.0
            &&& 3 * d.log.len() < image.lsn.0
            &&& recovery_laws::replays(a, d) ==> recovery_laws::recovered(
                a.pages,
                d2.log,
                a.log.len(),
                d.log.len(),
            ) == Ok::<Seq<Seq<u8>>, StorageError>(d.pages)
            &&& !storage::image_due(d2.checkpoint, d2.pages[id.0 as int])
        },
{
    if let (d1, Ok(lsn)) = model::logged(d, payload, encode, append) {
        let id = redo::target_of(payload).0;
        let d2 = model::put(d1, id, r, lsn);
        layout::lemma_with_lsn(r, lsn);
        if recovery_laws::replays(a, d) {
            recovery_laws::lemma_recovered_same(
                a.pages,
                d.log,
                d2.log,
                a.log.len(),
                d.log.len(),
            );
        }
    }
}

/// An empty log has its images in place.
pub proof fn lemma_empty_in_place(d: Disk)
    requires
        d.pages.len() == 0,
        d.log.len() == 0,
        d.images.len() == 0,
        d.checkpoint.0 == 0,
    ensures
        images_in_place(d),
{
    reveal(images_in_place);
}

/// A checkpoint at the end of the log leaves every page in debt of an image,
/// and the images in place.
pub proof fn lemma_checkpoint_in_place(d: Disk)
    requires
        images_in_place(d),
        recovery_laws::within_log(d),
        d.log.len() < storage::LOG_CAPACITY,
    ensures
        ({
            let d1 = Disk { checkpoint: storage::checkpoint_lsn(d.log), ..d };
            &&& images_in_place(d1)
            &&& forall|p: int|
                0 <= p < d.pages.len() ==> storage::image_due(
                    d1.checkpoint,
                    #[trigger] d1.pages[p],
                )
        }),
{
    reveal(images_in_place);
    let d1 = Disk { checkpoint: storage::checkpoint_lsn(d.log), ..d };
    assert forall|i: int| 0 <= i < d1.images.len() implies #[trigger] image_ahead(d1, i) by {
        assert(image_ahead(d, i));
    }
}

// ---------------------------------------------------------------------
// The steps of an operation.
// ---------------------------------------------------------------------

/// What was logged whole stays so on a disk that goes on.
proof fn lemma_logged_whole_stays(d: Disk, e: Disk, id: PageId, lsn: int, later: int)
    requires
        logged_whole(d, id, lsn),
        e.checkpoint == d.checkpoint,
        d.log.len() <= e.log.len(),
        forall|k: int| 0 <= k < d.log.len() ==> e.log[k] == d.log[k],
        d.images.len() <= e.images.len(),
        forall|i: int| 0 <= i < d.images.len() ==> e.images[i] == d.images[i],
        lsn <= later,
    ensures
        logged_whole(e, id, later),
{
    if exists|i: int| #[trigger] imaged_at(d, i, id, lsn) {
        let i = choose|i: int| #[trigger] imaged_at(d, i, id, lsn);
        assert(imaged_at(e, i, id, later));
    } else {
        let k = choose|k: int| #[trigger] held_at(d, k, id, lsn);
        assert(held_at(e, k, id, later));
    }
}

/// A disk with the same pages, log, images and checkpoint.
proof fn lemma_same_in_place(d: Disk, e: Disk)
    requires
        images_in_place(d),
        e == (Disk { durable: e.durable, ..d }),
    ensures
        images_in_place(e),
{
    reveal(images_in_place);
    assert forall|i: int| 0 <= i < e.images.len() implies #[trigger] image_ahead(e, i) by {
        assert(image_ahead(d, i));
    }
    assert forall|p: int|
        e.log.len() < storage::LOG_CAPACITY && 0 <= p < e.pages.len() && !storage::image_due(
            e.checkpoint,
            #[trigger] e.pages[p],
        ) implies
        logged_whole(e, PageId(p as u64), end(e)) by {
        lemma_logged_whole_stays(d, e, PageId(p as u64), end(d), end(e));
    }
    assert forall|k: int|
        0 <= k < e.log.len() && e.checkpoint.0 < (#[trigger] e.log[k]).lsn.0 && !(
        e.log[k].payload is FullPageImage) implies logged_whole(
        e,
        redo::target_of(e.log[k].payload).0,
        e.log[k].lsn.0 as int,
    ) by {
        let n = d.log[k].lsn.0 as int;
        lemma_logged_whole_stays(d, e, redo::target_of(d.log[k].payload).0, n, n);
    }
}

/// A mark keeps the images in place.
proof fn lemma_marked_in_place(w: World, mark: ProbeMark)
    requires
        images_in_place(w.disk),
    ensures
        images_in_place(model::marked(w, mark).0.disk),
{
    lemma_same_in_place(w.disk, model::marked(w, mark).0.disk);
}

/// A record keeps the images in place, whether its page is changed then or
/// not.
proof fn lemma_record_in_place(
    d: Disk,
    payload: PayloadView,
    encode: &'static str,
    append: &'static str,
    r: Seq<u8>,
)
    requires
        images_in_place(d),
        redo::target_of(payload).0.0 < d.pages.len(),
        !(payload is FullPageImage),
    ensures
        images_in_place(model::logged(d, payload, encode, append).0),
        model::logged(d, payload, encode, append) matches (d1, Ok(lsn)) ==> images_in_place(
            model::put(d1, redo::target_of(payload).0, r, lsn),
        ),
{
    reveal(images_in_place);
    let (d1, s) = model::logged(d, payload, encode, append);
    let id = redo::target_of(payload).0;
    let n = d.log.len() as int;
    if let Ok(lsn) = s {
        let d2 = model::put(d1, id, r, lsn);
        assert(logged_whole(d1, id, 3 * n + 3)) by {
            if storage::image_due(d.checkpoint, d.pages[id.0 as int]) {
                assert(imaged_at(d1, d.images.len() as int, id, 3 * n + 3));
            } else {
                lemma_logged_whole_stays(d, d1, id, 3 * n + 1, 3 * n + 3);
            }
        }
        assert forall|e: Disk| e == d1 || e == d2 implies #[trigger] images_in_place(e) by {
            lemma_logged_whole_stays(d1, e, id, 3 * n + 3, 3 * n + 4);
            lemma_logged_whole_stays(d1, e, id, 3 * n + 3, 3 * n + 3);
            assert forall|i: int| 0 <= i < e.images.len() implies #[trigger] image_ahead(e, i) by {
                if i < d.images.len() {
                    assert(image_ahead(d, i));
                } else {
                    assert((3 * n + 2 - 2) / 3 == n);
                }
            }
            assert forall|i: int, j: int| 0 <= i < j < e.images.len() implies (
            #[trigger] e.images[i]).lsn.0 < (#[trigger] e.images[j]).lsn.0 by {
                assert(image_ahead(d, i));
            }
            assert forall|p: int|
                0 <= p < e.pages.len() && !storage::image_due(
                    e.checkpoint,
                    #[trigger] e.pages[p],
                ) implies logged_whole(e, PageId(p as u64), end(e)) by {
                if p != id.0 {
                    assert(e.pages[p] == d.pages[p]);
                    lemma_logged_whole_stays(d, e, PageId(p as u64), 3 * n + 1, 3 * n + 4);
                }
            }
            assert forall|k: int|
                0 <= k < e.log.len() && e.checkpoint.0 < (#[trigger] e.log[k]).lsn.0 && !(
                e.log[k].payload is FullPageImage) implies logged_whole(
                e,
                redo::target_of(e.log[k].payload).0,
                e.log[k].lsn.0 as int,
            ) by {
                if k < n {
                    let m = d.log[k].lsn.0 as int;
                    lemma_logged_whole_stays(d, e, redo::target_of(d.log[k].payload).0, m, m);
                }
            }
        }
        assert(images_in_place(d1));
        assert(images_in_place(d2));
    }
}

/// An allocation keeps the images in place.
proof fn lemma_allocation_in_place(d: Disk, image: Seq<u8>, context: &'static str)
    requires
        images_in_place(d),
        image.len() == PAGE_SIZE,
    ensures
        images_in_place(model::allocated(d, image, context).0),
{
    reveal(images_in_place);
    let (d1, r) = model::allocated(d, image, context);
    let n = d.log.len() as int;
    assert forall|i: int| 0 <= i < d1.images.len() implies #[trigger] image_ahead(d1, i) by {
        assert(image_ahead(d, i));
    }
    assert forall|p: int|
        d1.log.len() < storage::LOG_CAPACITY && 0 <= p < d1.pages.len() && !storage::image_due(
            d1.checkpoint,
            #[trigger] d1.pages[p],
        ) implies logged_whole(d1, PageId(p as u64), end(d1)) by {
        if p < d.pages.len() {
            assert(d1.pages[p] == d.pages[p]);
            lemma_logged_whole_stays(d, d1, PageId(p as u64), end(d), end(d1));
        } else {
            assert(held_at(d1, n, PageId(p as u64), end(d1)));
        }
    }
    assert forall|k: int|
        0 <= k < d1.log.len() && d1.checkpoint.0 < (#[trigger] d1.log[k]).lsn.0 && !(
        d1.log[k].payload is FullPageImage) implies logged_whole(
        d1,
        redo::target_of(d1.log[k].payload).0,
        d1.log[k].lsn.0 as int,
    ) by {
        let m = d.log[k].lsn.0 as int;
        lemma_logged_whole_stays(d, d1, redo::target_of(d.log[k].payload).0, m, m);
    }
}

/// The first step keeps the images in place.
proof fn lemma_node_page_ready_in_place(w: World, len: usize)
    requires
        images_in_place(w.disk),
    ensures
        images_in_place(model::node_page_ready(w, len).0.disk),
{
    reveal(model::node_page_ready);
    let image = page::blank_page(PAGE_TYPE_NODE);
    let context = "alloc_node_page: allocate";
    page::lemma_blank_page(PAGE_TYPE_NODE);
    lemma_allocation_in_place(w.disk, image, context);
    let (disk, r) = model::allocated(w.disk, image, context);
    lemma_marked_in_place(World { disk, ..w }, ProbeMark::NodePageInit);
}

/// Linking a directory page keeps the images in place.
proof fn lemma_dir_page_linked_in_place(w: World, tail: PageId, p: Seq<u8>, next: PageId)
    requires
        images_in_place(w.disk),
        tail.0 < w.disk.pages.len(),
    ensures
        images_in_place(model::dir_page_linked(w, tail, p, next).0.disk),
{
    let payload = Payload::DirLink { old_tail_page: tail, next_page: next };
    let (encode, append) = ("insert: encode DirLink", "insert: WAL append DirLink");
    let r = apply::dir_linked(p, next);
    lemma_record_in_place(w.disk, payload, encode, append, r);
    if let (disk, Ok(lsn)) = model::logged(w.disk, payload, encode, append) {
        let disk = model::put(disk, tail, r, lsn);
        lemma_marked_in_place(World { disk, ..w }, ProbeMark::DirLink);
    }
}

/// The second step keeps the images in place.
proof fn lemma_dir_tail_ready_in_place(w: World)
    requires
        images_in_place(w.disk),
    ensures
        images_in_place(model::dir_tail_ready(w).0.disk),
{
    reveal(model::dir_tail_ready);
    let tail = w.index.dir_pages.last();
    let image = page::blank_dir_page(w.index.dir_pages.len() as u64);
    let context = "alloc_dir_page: allocate";
    page::lemma_blank_dir_page(w.index.dir_pages.len() as u64);
    lemma_allocation_in_place(w.disk, image, context);
    let (disk, r) = model::allocated(w.disk, image, context);
    let w1 = World { disk, ..w };
    lemma_marked_in_place(w1, ProbeMark::DirPageInit);
    if let (Ok(p), Ok(next)) = (storage::fetched(w.disk.pages, tail), r) {
        let w2 = model::marked(w1, ProbeMark::DirPageInit).0;
        lemma_dir_page_linked_in_place(w2, tail, p, next);
    }
}

/// The third step keeps the images in place.
proof fn lemma_entry_created_in_place(
    w: World,
    id: PageId,
    node_id: u32,
    level: u8,
    vector: Seq<u32>,
)
    requires
        images_in_place(w.disk),
    ensures
        images_in_place(model::entry_created(w, id, node_id, level, vector).0.disk),
{
    reveal(model::entry_created);
    let geo = model::geometry(w.index.params);
    if let Ok(p) = storage::fetched(w.disk.pages, id) {
        if let Ok(slot) = apply::selected(p, geo.size(level) as usize) {
            let payload = Payload::NodeInit {
                meta_page_id: w.index.meta_page_id,
                page_id: id,
                slot_id: slot,
                node_id,
                level,
                dim: w.index.params.dim,
                vector,
            };
            let (encode, append) = ("insert: encode NodeInit", "insert: WAL append NodeInit");
            let r = apply::node_applied(p, slot, level, geo, vector);
            lemma_step_in_place(w, payload, encode, append, r, ProbeMark::NodeInit);
        }
    }
}

/// A record, the change of its page, if that can be made, and a mark keep the
/// images in place.
proof fn lemma_step_in_place(
    w: World,
    payload: PayloadView,
    encode: &'static str,
    append: &'static str,
    r: Result<Seq<u8>, HnswError>,
    mark: ProbeMark,
)
    requires
        images_in_place(w.disk),
        redo::target_of(payload).0.0 < w.disk.pages.len(),
        !(payload is FullPageImage),
    ensures
        images_in_place(model::logged(w.disk, payload, encode, append).0),
        (model::logged(w.disk, payload, encode, append), r) matches ((d1, Ok(lsn)), Ok(q)) ==> {
            let disk = model::put(d1, redo::target_of(payload).0, q, lsn);
            images_in_place(model::marked(World { disk, ..w }, mark).0.disk)
        },
{
    let q = r->Ok_0;
    lemma_record_in_place(w.disk, payload, encode, append, q);
    if let (d1, Ok(lsn)) = model::logged(w.disk, payload, encode, append) {
        let disk = model::put(d1, redo::target_of(payload).0, q, lsn);
        lemma_marked_in_place(World { disk, ..w }, mark);
    }
}

/// The fourth step keeps the images in place.
proof fn lemma_place_published_in_place(
    w: World,
    tail: PageId,
    node_id: u32,
    id: PageId,
    slot: u16,
)
    requires
        images_in_place(w.disk),
    ensures
        images_in_place(model::place_published(w, tail, node_id, id, slot).0.disk),
{
    reveal(model::place_published);
    if let Ok(p) = storage::fetched(w.disk.pages, tail) {
        let payload = Payload::DirAppend {
            dir_tail_page: tail,
            node_id,
            target_page: id,
            target_slot: slot,
        };
        let (encode, append) = ("insert: encode DirAppend", "insert: WAL append DirAppend");
        let r = match apply::dir_appended(p, node_id, id, slot) {
            Ok((_, q)) => Ok(q),
            Err(e) => Err(e),
        };
        lemma_step_in_place(w, payload, encode, append, r, ProbeMark::DirAppend);
    }
}

/// The steps up to the fourth keep the images in place.
proof fn lemma_begun_in_place(w: World, vector: Seq<u32>)
    requires
        images_in_place(w.disk),
    ensures
        images_in_place(model::begun(w, vector).0.disk),
{
    reveal(model::begun);
    let node_id = w.index.hwm as u32;
    let (w1, level) = model::level_drawn(w);
    let len = model::geometry(w.index.params).size(level) as usize;
    lemma_node_page_ready_in_place(w1, len);
    if let (w2, Ok(id)) = model::node_page_ready(w1, len) {
        lemma_dir_tail_ready_in_place(w2);
        if let (w3, Ok(tail)) = model::dir_tail_ready(w2) {
            lemma_entry_created_in_place(w3, id, node_id, level, vector);
            if let (w4, Ok(slot)) = model::entry_created(w3, id, node_id, level, vector) {
                lemma_place_published_in_place(w4, tail, node_id, id, slot);
            }
        }
    }
}

/// Writing a list keeps the images in place.
proof fn lemma_list_written_in_place(
    w: World,
    id: PageId,
    slot: u16,
    owner: u32,
    level: u8,
    list: Seq<u32>,
    contexts: (&'static str, &'static str, &'static str),
    mark: ProbeMark,
)
    requires
        images_in_place(w.disk),
    ensures
        images_in_place(
            model::list_written(w, id, slot, owner, level, list, contexts, mark).0.disk,
        ),
{
    reveal(model::list_written);
    if let Ok(p) = storage::fetched(w.disk.pages, id) {
        let payload = Payload::SetNeighbors {
            meta_page_id: w.index.meta_page_id,
            page_id: id,
            slot_id: slot,
            node_id: owner,
            level,
            neighbors: list,
        };
        let r = apply::neighbors_set(p, slot, model::geometry(w.index.params), level, list);
        lemma_step_in_place(w, payload, contexts.1, contexts.2, r, mark);
    }
}

/// The fifth step on one level keeps the images in place.
proof fn lemma_level_connected_in_place(
    w: World,
    node_id: u32,
    level: u8,
    c: LevelChoice,
    n: nat,
)
    requires
        images_in_place(w.disk),
    ensures
        images_in_place(model::level_connected(w, node_id, level, c, n).0.disk),
    decreases n,
{
    reveal_with_fuel(model::level_connected, 2);
    if n > 0 {
        lemma_level_connected_in_place(w, node_id, level, c, (n - 1) as nat);
        let (w1, r) = model::level_connected(w, node_id, level, c, (n - 1) as nat);
        let nb = c.neighbors[n - 1];
        if let Ok(plan) = model::edge_planned(w1, node_id, nb, level) {
            let list = if plan.over {
                c.shrunk[n - 1]
            } else {
                plan.list
            };
            lemma_list_written_in_place(
                w1,
                plan.page_id,
                plan.slot,
                nb,
                level,
                list,
                (
                    "insert: pin_mut neighbor page",
                    "insert: encode SetNeighbors",
                    "insert: WAL append SetNeighbors",
                ),
                ProbeMark::NeighborEdge { level, shrank: plan.over },
            );
        }
    }
}

/// The fifth step keeps the images in place.
proof fn lemma_connected_in_place(
    w: World,
    node_id: u32,
    shared: nat,
    cs: Seq<LevelChoice>,
    k: nat,
)
    requires
        images_in_place(w.disk),
    ensures
        images_in_place(model::connected(w, node_id, shared, cs, k).0.disk),
    decreases k,
{
    if k > 0 {
        lemma_connected_in_place(w, node_id, shared, cs, (k - 1) as nat);
        let w1 = model::connected(w, node_id, shared, cs, (k - 1) as nat).0;
        lemma_level_connected_in_place(
            w1,
            node_id,
            (shared - k) as u8,
            cs[k - 1],
            cs[k - 1].neighbors.len(),
        );
    }
}

/// The sixth step keeps the images in place.
proof fn lemma_own_lists_written_in_place(
    w: World,
    pending: PendingInsert,
    own: Seq<Seq<u32>>,
    n: nat,
)
    requires
        images_in_place(w.disk),
    ensures
        images_in_place(model::own_lists_written(w, pending, own, n).0.disk),
    decreases n,
{
    if n > 0 {
        lemma_own_lists_written_in_place(w, pending, own, (n - 1) as nat);
        let w1 = model::own_lists_written(w, pending, own, (n - 1) as nat).0;
        lemma_list_written_in_place(
            w1,
            pending.page_id,
            pending.slot,
            pending.node_id.0,
            (n - 1) as u8,
            model::own_list(own, n - 1),
            (
                "insert: pin_mut own node page",
                "insert: encode own SetNeighbors",
                "insert: WAL append own SetNeighbors",
            ),
            ProbeMark::OwnList { level: (n - 1) as u8 },
        );
    }
}

/// The seventh step keeps the images in place.
proof fn lemma_entry_point_raised_in_place(w: World, pending: PendingInsert)
    requires
        images_in_place(w.disk),
    ensures
        images_in_place(model::entry_point_raised(w, pending).0.disk),
{
    reveal(model::entry_point_raised);
    let id = w.index.meta_page_id;
    if let Ok(p) = storage::fetched(w.disk.pages, id) {
        let payload = Payload::MetaUpdate {
            meta_page_id: id,
            entry_point: pending.node_id.0,
            max_level: pending.level,
        };
        let (encode, append) = ("insert: encode MetaUpdate", "insert: WAL append MetaUpdate");
        let r = meta::meta_applied(p, pending.node_id.0, pending.level);
        lemma_step_in_place(w, payload, encode, append, Ok(r), ProbeMark::MetaUpdate);
    }
}

/// The eighth step keeps the images in place.
proof fn lemma_entry_published_in_place(w: World, pending: PendingInsert)
    requires
        images_in_place(w.disk),
    ensures
        images_in_place(model::entry_published(w, pending).0.disk),
{
    reveal(model::entry_published);
    let id = pending.page_id;
    let dim = w.index.params.dim;
    if let Ok(p) = storage::fetched(w.disk.pages, id) {
        let payload = Payload::PublishLive {
            meta_page_id: w.index.meta_page_id,
            page_id: id,
            slot_id: pending.slot,
            node_id: pending.node_id.0,
            dim,
        };
        let (encode, append) = ("insert: encode PublishLive", "insert: WAL append PublishLive");
        let r = apply::live_published(p, pending.slot, dim);
        lemma_step_in_place(w, payload, encode, append, r, ProbeMark::PublishLive);
    }
}

// ---------------------------------------------------------------------
// The operations.
// ---------------------------------------------------------------------

/// An insertion keeps the images in place, whatever comes of it.
pub proof fn lemma_insertion_in_place(w: World, vector: Seq<u32>, cs: Seq<LevelChoice>)
    requires
        images_in_place(w.disk),
    ensures
        images_in_place(model::inserted(w, vector, cs).0.disk),
{
    lemma_begun_in_place(w, vector);
    if let (w1, Ok(pending)) = model::begun(w, vector) {
        let shared = model::shared_levels(w1.index, pending);
        lemma_connected_in_place(w1, pending.node_id.0, shared, cs, cs.len());
        let w2 = model::connected(w1, pending.node_id.0, shared, cs, cs.len()).0;
        let own = model::chosen_lists(cs);
        reveal(model::finished);
        let n = model::shared_levels(w2.index, pending);
        lemma_own_lists_written_in_place(w2, pending, own, n);
        let w3 = model::own_lists_written(w2, pending, own, n).0;
        lemma_entry_point_raised_in_place(w3, pending);
        let w4 = model::entry_point_raised(w3, pending).0;
        lemma_entry_published_in_place(w4, pending);
        let d = model::entry_published(w4, pending).0.disk;
        lemma_same_in_place(d, Disk { durable: d.log.len() as u64, ..d });
    }
}

/// Creating an index keeps the images in place, whatever comes of it.
pub proof fn lemma_creation_in_place(
    d: Disk,
    p: HnswParams,
    dim: u16,
    metric: Metric,
    selection: NeighborSelection,
    rng_seed: u64,
)
    requires
        images_in_place(d),
    ensures
        images_in_place(model::created(d, p, dim, metric, selection, rng_seed).0),
{
    let context = "create: allocate directory head";
    page::lemma_blank_dir_page(0);
    page::lemma_blank_page(PAGE_TYPE_META);
    lemma_allocation_in_place(d, page::blank_dir_page(0), context);
    if let (d1, Ok(head)) = model::allocated(d, page::blank_dir_page(0), context) {
        let q = model::new_params(p, dim, metric, selection, rng_seed, head);
        let image = meta::meta_written(page::blank_page(PAGE_TYPE_META), q);
        lemma_allocation_in_place(d1, image, "create: allocate meta page");
    }
}

/// Opening an index keeps the images in place, whatever comes of it.
pub proof fn lemma_opening_in_place(d: Disk, meta_id: PageId, e: ExpectedParams)
    requires
        images_in_place(d),
    ensures
        images_in_place(model::opened(d, meta_id, e).0),
{
    if let Ok(p) = storage::fetched(d.pages, meta_id) {
        let q = meta::meta_of(p)->Ok_0;
        let (id, slot) = dir::entry(d.pages[q.dir_head.0 as int], 0)->Ok_0;
        let np = d.pages[id.0 as int];
        let top = node::state_top(
            apply::state_of(np, slot, q.dim, "entry_top_level")->Ok_0,
        );
        let payload = Payload::MetaUpdate {
            meta_page_id: meta_id,
            entry_point: 0,
            max_level: top,
        };
        let (encode, append) = ("open-repair: encode MetaUpdate", "open-repair: WAL append");
        lemma_record_in_place(d, payload, encode, append, meta::meta_applied(p, 0, top));
    }
}

} // verus!
