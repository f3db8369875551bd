//! What it means that an index is in order on its pages.
//!
//! The directory is a legal chain; every node has a place of its own, on a
//! node page in order, with an entry in order. The entries in the order of
//! their node ids are the graph.

use vstd::prelude::*;

use crate::apply;
use crate::dir;
use crate::entry_laws;
use crate::error::HnswError;
use crate::layout;
use crate::layout::NodeView;
use crate::node::NodeGeometry;
use crate::page;
use crate::page::PAGE_TYPE_DIR;
use crate::paged;
use crate::storage;
use crate::storage::PageId;
use crate::storage::PAGE_SIZE;

verus! {

/// The place of node `i`.
pub open spec fn place(pages: Seq<Seq<u8>>, dirs: Seq<PageId>, i: int) -> (PageId, u16) {
    dir::target(pages[dirs[i / 813].0 as int], i % 813)
}

/// The bytes of the entry of node `i`.
pub open spec fn node_bytes(pages: Seq<Seq<u8>>, dirs: Seq<PageId>, i: int) -> Seq<u8> {
    let (id, slot) = place(pages, dirs, i);
    layout::slot_bytes(pages[id.0 as int], slot)->0
}

/// Node `i` has an entry in order on a node page in order.
pub open spec fn placed(
    pages: Seq<Seq<u8>>,
    dirs: Seq<PageId>,
    geo: NodeGeometry,
    i: int,
) -> bool {
    let (id, slot) = place(pages, dirs, i);
    &&& id.0 < pages.len()
    &&& layout::node_page_ok(pages[id.0 as int])
    &&& layout::slot_bytes(pages[id.0 as int], slot) matches Some(e) && layout::entry_ok(e, geo)
}

/// An index with `hwm` nodes and the directory pages `dirs` is in order on
/// its pages.
pub open spec fn laid_out(
    pages: Seq<Seq<u8>>,
    dirs: Seq<PageId>,
    geo: NodeGeometry,
    hwm: u64,
) -> bool {
    &&& storage::sized(pages)
    &&& dir::legal_chain(pages, dirs)
    &&& dir::tail_hwm(pages[dirs.last().0 as int]) == hwm
    &&& forall|i: int| 0 <= i < hwm ==> #[trigger] placed(pages, dirs, geo, i)
    &&& forall|i: int, j: int|
        0 <= i < j < hwm ==> #[trigger] place(pages, dirs, i) != #[trigger] place(pages, dirs, j)
}

/// The graph on the pages.
pub open spec fn graph(
    pages: Seq<Seq<u8>>,
    dirs: Seq<PageId>,
    geo: NodeGeometry,
    hwm: u64,
) -> Seq<NodeView> {
    Seq::new(hwm as nat, |i: int| layout::node_in(node_bytes(pages, dirs, i), geo))
}

// ---------------------------------------------------------------------
// The directory.
// ---------------------------------------------------------------------

/// What a legal chain says of its pages: their type, their position, and
/// their number of entries.
pub proof fn lemma_chain_pages(pages: Seq<Seq<u8>>, dirs: Seq<PageId>, k: int)
    requires
        dir::legal_chain(pages, dirs),
        0 <= k < dirs.len(),
    ensures
        dirs[k].0 < pages.len(),
        storage::pd_flags(pages[dirs[k].0 as int]) == PAGE_TYPE_DIR,
        page::spec_dir_ordinal(pages[dirs[k].0 as int]) == k,
        page::spec_dir_count(pages[dirs[k].0 as int]) <= 813,
        k + 1 < dirs.len() ==> page::spec_dir_count(pages[dirs[k].0 as int]) == 813,
        k + 1 < dirs.len() ==> page::spec_dir_next(pages[dirs[k].0 as int]) == dirs[k + 1],
        k + 1 == dirs.len() ==> page::spec_dir_next(pages[dirs[k].0 as int]).0
            == storage::INVALID_PAGE,
        dir::tail_hwm(pages[dirs.last().0 as int]) <= u32::MAX,
{
    let n = dirs.len() - 1;
    assert(dirs[k].0 < pages.len());
    assert(dirs[n].0 < pages.len());
    assert(dir::chain_link(pages[dirs[n].0 as int], dirs[n], n as nat) is Ok);
    assert(dir::chain_link(pages[dirs[k].0 as int], dirs[k], k as nat) is Ok);
}

/// The directory entry of a node that is there.
pub proof fn lemma_dir_position(pages: Seq<Seq<u8>>, dirs: Seq<PageId>, hwm: u64, i: int)
    requires
        dir::legal_chain(pages, dirs),
        dir::tail_hwm(pages[dirs.last().0 as int]) == hwm,
        0 <= i < hwm,
    ensures
        0 <= i / 813 < dirs.len(),
        0 <= i % 813 < page::spec_dir_count(pages[dirs[i / 813].0 as int]),
        hwm <= u32::MAX,
{
    let n = dirs.len() - 1;
    lemma_chain_pages(pages, dirs, n);
    assert(hwm == 813 * n + page::spec_dir_count(pages[dirs[n].0 as int]));
    let k = i / 813;
    if k < n {
        lemma_chain_pages(pages, dirs, k);
    }
}

/// A node id is resolved to the node's place if the node is there, and to an
/// error if it is not.
pub proof fn lemma_resolved(pages: Seq<Seq<u8>>, dirs: Seq<PageId>, hwm: u64, i: u32)
    requires
        dir::legal_chain(pages, dirs),
        dir::tail_hwm(pages[dirs.last().0 as int]) == hwm,
    ensures
        i < hwm ==> paged::resolved(pages, dirs, i) == Ok::<(PageId, u16), HnswError>(
            place(pages, dirs, i as int),
        ),
        i >= hwm ==> paged::resolved(pages, dirs, i) is Err,
{
    let n = dirs.len() - 1;
    lemma_chain_pages(pages, dirs, n);
    let k = i as int / 813;
    if i < hwm {
        lemma_dir_position(pages, dirs, hwm, i as int);
        lemma_chain_pages(pages, dirs, k);
    } else if k < dirs.len() {
        lemma_chain_pages(pages, dirs, k);
        if k < n {
            assert(hwm >= 813 * n);
            assert(i >= 813 * n);
        }
    }
}

/// A directory page says the same whatever its log position.
pub proof fn lemma_dir_page_same(p: Seq<u8>, q: Seq<u8>)
    requires
        p.len() == PAGE_SIZE,
        layout::same_past_lsn(p, q),
    ensures
        storage::pd_flags(q) == storage::pd_flags(p),
        page::spec_dir_ordinal(q) == page::spec_dir_ordinal(p),
        page::spec_dir_count(q) == page::spec_dir_count(p),
        page::spec_dir_next(q) == page::spec_dir_next(p),
        dir::tail_hwm(q) == dir::tail_hwm(p),
        forall|id: PageId, k: nat| #[trigger]
            dir::chain_link(q, id, k) == dir::chain_link(p, id, k),
        forall|i: int| 0 <= i < 813 ==> #[trigger] dir::target(q, i) == dir::target(p, i),
{
    assert(storage::pd_flags(q) == storage::pd_flags(p));
    assert(page::spec_dir_ordinal(q) == page::spec_dir_ordinal(p));
    assert(page::spec_dir_count(q) == page::spec_dir_count(p));
    assert(page::spec_dir_next(q) == page::spec_dir_next(p));
    assert forall|i: int| 0 <= i < 813 implies #[trigger] dir::target(q, i) == dir::target(
        p,
        i,
    ) by {
        let at = dir::entry_at(i);
        assert(q[at] == p[at] && q[at + 1] == p[at + 1] && q[at + 2] == p[at + 2]);
        assert(q[at + 3] == p[at + 3] && q[at + 4] == p[at + 4] && q[at + 5] == p[at + 5]);
        assert(q[at + 6] == p[at + 6] && q[at + 7] == p[at + 7] && q[at + 8] == p[at + 8]);
        assert(q[at + 9] == p[at + 9]);
    }
}

/// Pages that agree on the directory have the same directory, and the same
/// places.
pub proof fn lemma_same_directory(
    pages: Seq<Seq<u8>>,
    other: Seq<Seq<u8>>,
    dirs: Seq<PageId>,
    hwm: u64,
)
    requires
        dir::legal_chain(pages, dirs),
        dir::tail_hwm(pages[dirs.last().0 as int]) == hwm,
        pages.len() <= other.len(),
        forall|k: int|
            0 <= k < dirs.len() ==> other[(#[trigger] dirs[k]).0 as int] == pages[dirs[k].0 as int],
    ensures
        dir::legal_chain(other, dirs),
        dir::tail_hwm(other[dirs.last().0 as int]) == hwm,
        forall|i: int|
            0 <= i < hwm ==> #[trigger] place(other, dirs, i) == place(pages, dirs, i),
{
    let n = dirs.len() - 1;
    assert(dirs.last() == dirs[n]);
    assert forall|i: int| 0 <= i < dirs.len() implies (#[trigger] dirs[i]).0 < other.len()
        && dir::chain_link(other[dirs[i].0 as int], dirs[i], i as nat) == Ok::<
        Option<PageId>,
        HnswError,
    >(
        if i + 1 < dirs.len() {
            Some(dirs[i + 1])
        } else {
            None
        },
    ) by {
        assert(dirs[i].0 < pages.len());
    }
    assert forall|i: int| 0 <= i < hwm implies #[trigger] place(other, dirs, i) == place(
        pages,
        dirs,
        i,
    ) by {
        lemma_dir_position(pages, dirs, hwm, i);
        assert(other[dirs[i / 813].0 as int] == pages[dirs[i / 813].0 as int]);
    }
}

// ---------------------------------------------------------------------
// What operations on pages do to the graph.
// ---------------------------------------------------------------------

/// One more page changes nothing.
pub proof fn lemma_page_added(
    pages: Seq<Seq<u8>>,
    dirs: Seq<PageId>,
    geo: NodeGeometry,
    hwm: u64,
    q: Seq<u8>,
)
    requires
        laid_out(pages, dirs, geo, hwm),
        q.len() == PAGE_SIZE,
    ensures
        laid_out(pages.push(q), dirs, geo, hwm),
        graph(pages.push(q), dirs, geo, hwm) == graph(pages, dirs, geo, hwm),
        forall|i: int|
            0 <= i < hwm ==> #[trigger] place(pages.push(q), dirs, i) == place(pages, dirs, i),
{
    let other = pages.push(q);
    assert forall|k: int| 0 <= k < dirs.len() implies other[(#[trigger] dirs[k]).0 as int]
        == pages[dirs[k].0 as int] by {
        assert(dirs[k].0 < pages.len());
    }
    lemma_same_directory(pages, other, dirs, hwm);
    assert forall|i: int| 0 <= i < hwm implies #[trigger] placed(other, dirs, geo, i)
        && node_bytes(other, dirs, i) == node_bytes(pages, dirs, i) by {
        assert(placed(pages, dirs, geo, i));
        assert(place(other, dirs, i) == place(pages, dirs, i));
    }
    assert(graph(other, dirs, geo, hwm) =~= graph(pages, dirs, geo, hwm)) by {
        assert forall|i: int| 0 <= i < hwm implies graph(other, dirs, geo, hwm)[i] == graph(
            pages,
            dirs,
            geo,
            hwm,
        )[i] by {
            assert(placed(other, dirs, geo, i));
        }
    }
}

/// Another content of a page that is no directory page, with an entry in
/// order wherever a node has its place, leaves the index in order; the nodes
/// on the page are what the page now says, the others what they were.
pub proof fn lemma_page_replaced(
    pages: Seq<Seq<u8>>,
    dirs: Seq<PageId>,
    geo: NodeGeometry,
    hwm: u64,
    id: PageId,
    q: Seq<u8>,
)
    requires
        laid_out(pages, dirs, geo, hwm),
        id.0 < pages.len(),
        q.len() == PAGE_SIZE,
        storage::pd_flags(pages[id.0 as int]) != PAGE_TYPE_DIR,
        forall|i: int|
            0 <= i < hwm && (#[trigger] place(pages, dirs, i)).0 == id ==> layout::node_page_ok(q)
                && (layout::slot_bytes(q, place(pages, dirs, i).1) matches Some(e)
                && layout::entry_ok(e, geo)),
    ensures
        ({
            let other = pages.update(id.0 as int, q);
            &&& laid_out(other, dirs, geo, hwm)
            &&& forall|i: int|
                0 <= i < hwm ==> #[trigger] place(other, dirs, i) == place(pages, dirs, i)
            &&& forall|i: int|
                0 <= i < hwm ==> #[trigger] node_bytes(other, dirs, i) == if place(
                    pages,
                    dirs,
                    i,
                ).0 == id {
                    layout::slot_bytes(q, place(pages, dirs, i).1)->0
                } else {
                    node_bytes(pages, dirs, i)
                }
        }),
{
    let other = pages.update(id.0 as int, q);
    assert forall|k: int| 0 <= k < dirs.len() implies other[(#[trigger] dirs[k]).0 as int]
        == pages[dirs[k].0 as int] by {
        lemma_chain_pages(pages, dirs, k);
    }
    lemma_same_directory(pages, other, dirs, hwm);
    assert forall|i: int| 0 <= i < hwm implies #[trigger] placed(other, dirs, geo, i) by {
        assert(placed(pages, dirs, geo, i));
        assert(place(other, dirs, i) == place(pages, dirs, i));
    }
    assert forall|i: int| 0 <= i < hwm implies #[trigger] node_bytes(other, dirs, i) == if place(
        pages,
        dirs,
        i,
    ).0 == id {
        layout::slot_bytes(q, place(pages, dirs, i).1)->0
    } else {
        node_bytes(pages, dirs, i)
    } by {
        assert(placed(pages, dirs, geo, i));
        assert(place(other, dirs, i) == place(pages, dirs, i));
    }
    assert forall|i: int, j: int| 0 <= i < j < hwm implies #[trigger] place(other, dirs, i)
        != #[trigger] place(other, dirs, j) by {
        assert(place(other, dirs, i) == place(pages, dirs, i));
        assert(place(other, dirs, j) == place(pages, dirs, j));
    }
}

/// Another entry for node `i`, and the same entries in the other slots of its
/// page, changes node `i` alone.
pub proof fn lemma_entry_replaced(
    pages: Seq<Seq<u8>>,
    dirs: Seq<PageId>,
    geo: NodeGeometry,
    hwm: u64,
    i: int,
    q: Seq<u8>,
    e: Seq<u8>,
)
    requires
        laid_out(pages, dirs, geo, hwm),
        0 <= i < hwm,
        layout::node_page_ok(q),
        layout::slot_bytes(q, place(pages, dirs, i).1) == Some(e),
        layout::entry_ok(e, geo),
        forall|s: u16|
            s != place(pages, dirs, i).1 ==> #[trigger] layout::slot_bytes(q, s)
                == layout::slot_bytes(pages[place(pages, dirs, i).0.0 as int], s),
    ensures
        ({
            let other = pages.update(place(pages, dirs, i).0.0 as int, q);
            &&& laid_out(other, dirs, geo, hwm)
            &&& graph(other, dirs, geo, hwm) == graph(pages, dirs, geo, hwm).update(
                i,
                layout::node_in(e, geo),
            )
            &&& forall|j: int|
                0 <= j < hwm ==> #[trigger] place(other, dirs, j) == place(pages, dirs, j)
        }),
{
    let (id, slot) = place(pages, dirs, i);
    let other = pages.update(id.0 as int, q);
    assert(placed(pages, dirs, geo, i));
    assert forall|j: int|
        0 <= j < hwm && (#[trigger] place(pages, dirs, j)).0 == id && j != i implies place(
        pages,
        dirs,
        j,
    ).1 != slot by {
        if j < i {
            assert(place(pages, dirs, j) != place(pages, dirs, i));
        } else {
            assert(place(pages, dirs, i) != place(pages, dirs, j));
        }
    }
    assert forall|j: int|
        0 <= j < hwm && (#[trigger] place(pages, dirs, j)).0 == id implies layout::node_page_ok(q)
        && (layout::slot_bytes(q, place(pages, dirs, j).1) matches Some(f) && layout::entry_ok(
        f,
        geo,
    )) by {
        assert(placed(pages, dirs, geo, j));
    }
    lemma_page_replaced(pages, dirs, geo, hwm, id, q);
    let g = graph(pages, dirs, geo, hwm).update(i, layout::node_in(e, geo));
    let h = graph(other, dirs, geo, hwm);
    assert forall|j: int| 0 <= j < hwm implies h[j] == g[j] by {
        assert(placed(pages, dirs, geo, j));
        assert(node_bytes(other, dirs, j) == if place(pages, dirs, j).0 == id {
            layout::slot_bytes(q, place(pages, dirs, j).1)->0
        } else {
            node_bytes(pages, dirs, j)
        });
    }
    assert(h =~= g);
}

/// A page that is no directory page and keeps the entries of the nodes on it
/// changes nothing.
pub proof fn lemma_entries_kept(
    pages: Seq<Seq<u8>>,
    dirs: Seq<PageId>,
    geo: NodeGeometry,
    hwm: u64,
    id: PageId,
    q: Seq<u8>,
)
    requires
        laid_out(pages, dirs, geo, hwm),
        id.0 < pages.len(),
        q.len() == PAGE_SIZE,
        storage::pd_flags(pages[id.0 as int]) != PAGE_TYPE_DIR,
        layout::node_page_ok(pages[id.0 as int]) ==> layout::node_page_ok(q) && forall|s: u16|
            layout::slot_bytes(pages[id.0 as int], s) is Some ==> #[trigger] layout::slot_bytes(
                q,
                s,
            ) == layout::slot_bytes(pages[id.0 as int], s),
    ensures
        ({
            let other = pages.update(id.0 as int, q);
            &&& laid_out(other, dirs, geo, hwm)
            &&& graph(other, dirs, geo, hwm) == graph(pages, dirs, geo, hwm)
            &&& forall|j: int|
                0 <= j < hwm ==> #[trigger] place(other, dirs, j) == place(pages, dirs, j)
        }),
{
    let other = pages.update(id.0 as int, q);
    assert forall|i: int|
        0 <= i < hwm && (#[trigger] place(pages, dirs, i)).0 == id implies layout::node_page_ok(q)
        && (layout::slot_bytes(q, place(pages, dirs, i).1) matches Some(e) && layout::entry_ok(
        e,
        geo,
    )) by {
        assert(placed(pages, dirs, geo, i));
        assert(layout::slot_bytes(q, place(pages, dirs, i).1) == layout::slot_bytes(
            pages[id.0 as int],
            place(pages, dirs, i).1,
        ));
    }
    lemma_page_replaced(pages, dirs, geo, hwm, id, q);
    let g = graph(pages, dirs, geo, hwm);
    let h = graph(other, dirs, geo, hwm);
    assert forall|i: int| 0 <= i < hwm implies h[i] == g[i] by {
        assert(placed(pages, dirs, geo, i));
        assert(node_bytes(other, dirs, i) == node_bytes(pages, dirs, i));
    }
    assert(h =~= g);
}

/// The directory page `q` is `p` with one more entry, for `to`.
#[verifier::opaque]
pub open spec fn extended(p: Seq<u8>, q: Seq<u8>, to: (PageId, u16)) -> bool {
    let count = page::spec_dir_count(p);
    &&& q.len() == PAGE_SIZE
    &&& storage::pd_flags(q) == storage::pd_flags(p)
    &&& page::spec_dir_ordinal(q) == page::spec_dir_ordinal(p)
    &&& page::spec_dir_next(q) == page::spec_dir_next(p)
    &&& count < 813
    &&& page::spec_dir_count(q) == count + 1
    &&& dir::target(q, count as int) == to
    &&& forall|i: int| 0 <= i < count ==> #[trigger] dir::target(q, i) == dir::target(p, i)
}

/// Appending the next node's place to a directory page, whatever its log
/// position then, gives it one more entry.
pub proof fn lemma_extended(p: Seq<u8>, node_id: u32, id: PageId, slot: u16, q: Seq<u8>)
    requires
        p.len() == PAGE_SIZE,
        node_id == dir::tail_hwm(p),
        apply::dir_appended(p, node_id, id, slot) matches Ok((_, r)) && layout::same_past_lsn(r, q),
    ensures
        extended(p, q, (id, slot)),
{
    reveal(extended);
    let (position, r) = apply::dir_appended(p, node_id, id, slot)->Ok_0;
    entry_laws::lemma_dir_append_reads_back(p, node_id, id, slot, 0);
    lemma_dir_page_same(r, q);
    let count = page::spec_dir_count(p);
    assert(position == count);
    assert(dir::target(q, count as int) == dir::target(r, count as int));
    assert forall|i: int| 0 <= i < count implies #[trigger] dir::target(q, i) == dir::target(
        p,
        i,
    ) by {
        entry_laws::lemma_dir_append_reads_back(p, node_id, id, slot, i as u32);
        assert(dir::target(q, i) == dir::target(r, i));
    }
}

/// One more entry on the tail is one more entry in the directory.
proof fn lemma_chain_extended(
    pages: Seq<Seq<u8>>,
    dirs: Seq<PageId>,
    hwm: u64,
    to: (PageId, u16),
    q: Seq<u8>,
)
    requires
        dir::legal_chain(pages, dirs),
        dir::tail_hwm(pages[dirs.last().0 as int]) == hwm,
        hwm < u32::MAX,
        extended(pages[dirs.last().0 as int], q, to),
    ensures
        ({
            let other = pages.update(dirs.last().0 as int, q);
            &&& dir::legal_chain(other, dirs)
            &&& dir::tail_hwm(other[dirs.last().0 as int]) == hwm + 1
            &&& q.len() == PAGE_SIZE
            &&& place(other, dirs, hwm as int) == to
            &&& forall|j: int|
                0 <= j < hwm ==> #[trigger] place(other, dirs, j) == place(pages, dirs, j)
        }),
{
    let n = dirs.len() - 1;
    let tail = dirs.last();
    let p = pages[tail.0 as int];
    let other = pages.update(tail.0 as int, q);
    reveal(extended);
    lemma_chain_pages(pages, dirs, n);
    let count = page::spec_dir_count(p);
    assert(hwm == 813 * n + count);
    assert(dir::tail_hwm(q) == hwm + 1);
    assert forall|k: int| 0 <= k < dirs.len() implies (#[trigger] dirs[k]).0 < other.len()
        && dir::chain_link(other[dirs[k].0 as int], dirs[k], k as nat) == Ok::<
        Option<PageId>,
        HnswError,
    >(
        if k + 1 < dirs.len() {
            Some(dirs[k + 1])
        } else {
            None
        },
    ) by {
        lemma_chain_pages(pages, dirs, k);
        if k < n {
            assert(dirs[k] != dirs[n]);
        }
    }
    assert forall|j: int| 0 <= j < hwm implies #[trigger] place(other, dirs, j) == place(
        pages,
        dirs,
        j,
    ) by {
        lemma_dir_position(pages, dirs, hwm, j);
        let k = j / 813;
        lemma_chain_pages(pages, dirs, k);
        if k < n {
            assert(dirs[k] != dirs[n]);
        } else {
            assert(dir::target(q, j % 813) == dir::target(p, j % 813));
        }
    }
    assert(hwm as int / 813 == n && hwm as int % 813 == count);
}

/// A node whose place and whose page stay is placed as before.
proof fn lemma_placed_same(
    pages: Seq<Seq<u8>>,
    other: Seq<Seq<u8>>,
    dirs: Seq<PageId>,
    geo: NodeGeometry,
    tail: PageId,
    i: int,
)
    requires
        placed(pages, dirs, geo, i),
        place(other, dirs, i) == place(pages, dirs, i),
        pages.len() <= other.len(),
        tail.0 < pages.len(),
        storage::pd_flags(pages[tail.0 as int]) == PAGE_TYPE_DIR,
        forall|k: int| 0 <= k < pages.len() && k != tail.0 ==> other[k] == pages[k],
    ensures
        placed(other, dirs, geo, i),
        node_bytes(other, dirs, i) == node_bytes(pages, dirs, i),
{
}

/// Entries that stay, and one more, make a graph with one more node.
proof fn lemma_graph_pushed(
    pages: Seq<Seq<u8>>,
    other: Seq<Seq<u8>>,
    dirs: Seq<PageId>,
    geo: NodeGeometry,
    hwm: u64,
    e: Seq<u8>,
)
    requires
        hwm < u32::MAX,
        forall|i: int|
            0 <= i < hwm ==> #[trigger] node_bytes(other, dirs, i) == node_bytes(pages, dirs, i),
        node_bytes(other, dirs, hwm as int) == e,
    ensures
        graph(other, dirs, geo, (hwm + 1) as u64) == graph(pages, dirs, geo, hwm).push(
            layout::node_in(e, geo),
        ),
{
    let g = graph(pages, dirs, geo, hwm).push(layout::node_in(e, geo));
    let h = graph(other, dirs, geo, (hwm + 1) as u64);
    assert forall|i: int| 0 <= i < h.len() implies h[i] == g[i] by {
        assert(h[i] == layout::node_in(node_bytes(other, dirs, i), geo));
    }
    assert(h =~= g);
}

/// A place that no node has makes one more node with a place of its own.
proof fn lemma_places_apart(
    pages: Seq<Seq<u8>>,
    other: Seq<Seq<u8>>,
    dirs: Seq<PageId>,
    hwm: u64,
    to: (PageId, u16),
)
    requires
        forall|i: int, j: int|
            0 <= i < j < hwm ==> #[trigger] place(pages, dirs, i) != #[trigger] place(
                pages,
                dirs,
                j,
            ),
        forall|i: int| 0 <= i < hwm ==> #[trigger] place(pages, dirs, i) != to,
        forall|i: int| 0 <= i < hwm ==> #[trigger] place(other, dirs, i) == place(pages, dirs, i),
        place(other, dirs, hwm as int) == to,
    ensures
        forall|i: int, j: int|
            0 <= i < j < hwm + 1 ==> #[trigger] place(other, dirs, i) != #[trigger] place(
                other,
                dirs,
                j,
            ),
{
    assert forall|i: int, j: int| 0 <= i < j < hwm + 1 implies #[trigger] place(other, dirs, i)
        != #[trigger] place(other, dirs, j) by {
        assert(place(other, dirs, i) == place(pages, dirs, i));
        if j < hwm {
            assert(place(other, dirs, j) == place(pages, dirs, j));
        }
    }
}

/// The nodes that are there keep their entries when the tail of the directory
/// is replaced.
proof fn lemma_all_placed_same(
    pages: Seq<Seq<u8>>,
    other: Seq<Seq<u8>>,
    dirs: Seq<PageId>,
    geo: NodeGeometry,
    hwm: u64,
    tail: PageId,
)
    requires
        forall|i: int| 0 <= i < hwm ==> #[trigger] placed(pages, dirs, geo, i),
        forall|i: int| 0 <= i < hwm ==> #[trigger] place(other, dirs, i) == place(pages, dirs, i),
        pages.len() <= other.len(),
        tail.0 < pages.len(),
        storage::pd_flags(pages[tail.0 as int]) == PAGE_TYPE_DIR,
        forall|k: int| 0 <= k < pages.len() && k != tail.0 ==> other[k] == pages[k],
    ensures
        forall|i: int| 0 <= i < hwm ==> #[trigger] placed(other, dirs, geo, i),
        forall|i: int|
            0 <= i < hwm ==> #[trigger] node_bytes(other, dirs, i) == node_bytes(pages, dirs, i),
{
    assert forall|i: int| 0 <= i < hwm implies #[trigger] placed(other, dirs, geo, i) by {
        assert(placed(pages, dirs, geo, i));
        assert(place(other, dirs, i) == place(pages, dirs, i));
        lemma_placed_same(pages, other, dirs, geo, tail, i);
    }
    assert forall|i: int| 0 <= i < hwm implies #[trigger] node_bytes(other, dirs, i) == node_bytes(
        pages,
        dirs,
        i,
    ) by {
        assert(placed(pages, dirs, geo, i));
        assert(place(other, dirs, i) == place(pages, dirs, i));
        lemma_placed_same(pages, other, dirs, geo, tail, i);
    }
}

/// A longer directory over the same node pages, whose last place is that of an
/// entry in order, holds one more node.
proof fn lemma_longer_directory(
    pages: Seq<Seq<u8>>,
    other: Seq<Seq<u8>>,
    dirs: Seq<PageId>,
    geo: NodeGeometry,
    hwm: u64,
    tail: PageId,
    to: (PageId, u16),
)
    requires
        laid_out(pages, dirs, geo, hwm),
        hwm < u32::MAX,
        storage::sized(other),
        dir::legal_chain(other, dirs),
        dir::tail_hwm(other[dirs.last().0 as int]) == hwm + 1,
        pages.len() == other.len(),
        tail.0 < pages.len(),
        storage::pd_flags(pages[tail.0 as int]) == PAGE_TYPE_DIR,
        forall|k: int| 0 <= k < pages.len() && k != tail.0 ==> other[k] == pages[k],
        place(other, dirs, hwm as int) == to,
        forall|j: int| 0 <= j < hwm ==> #[trigger] place(other, dirs, j) == place(pages, dirs, j),
        forall|i: int| 0 <= i < hwm ==> #[trigger] place(pages, dirs, i) != to,
        to.0.0 < pages.len(),
        layout::node_page_ok(pages[to.0.0 as int]),
        layout::slot_bytes(pages[to.0.0 as int], to.1) matches Some(e) && layout::entry_ok(e, geo),
    ensures
        laid_out(other, dirs, geo, (hwm + 1) as u64),
        graph(other, dirs, geo, (hwm + 1) as u64) == graph(pages, dirs, geo, hwm).push(
            layout::node_in(layout::slot_bytes(pages[to.0.0 as int], to.1)->0, geo),
        ),
{
    let e = layout::slot_bytes(pages[to.0.0 as int], to.1)->0;
    assert(other[to.0.0 as int] == pages[to.0.0 as int]);
    lemma_all_placed_same(pages, other, dirs, geo, hwm, tail);
    assert(placed(other, dirs, geo, hwm as int));
    assert(node_bytes(other, dirs, hwm as int) == e);
    lemma_places_apart(pages, other, dirs, hwm, to);
    lemma_graph_pushed(pages, other, dirs, geo, hwm, e);
}

/// Publishing the place of an entry in order that no node has, adds the
/// entry's node at the end.
pub proof fn lemma_node_added(
    pages: Seq<Seq<u8>>,
    dirs: Seq<PageId>,
    geo: NodeGeometry,
    hwm: u64,
    id: PageId,
    slot: u16,
    q: Seq<u8>,
)
    requires
        laid_out(pages, dirs, geo, hwm),
        hwm < u32::MAX,
        extended(pages[dirs.last().0 as int], q, (id, slot)),
        id.0 < pages.len(),
        layout::node_page_ok(pages[id.0 as int]),
        layout::slot_bytes(pages[id.0 as int], slot) matches Some(e) && layout::entry_ok(e, geo),
        forall|i: int| 0 <= i < hwm ==> #[trigger] place(pages, dirs, i) != (id, slot),
    ensures
        ({
            let other = pages.update(dirs.last().0 as int, q);
            let e = layout::slot_bytes(pages[id.0 as int], slot)->0;
            &&& laid_out(other, dirs, geo, (hwm + 1) as u64)
            &&& graph(other, dirs, geo, (hwm + 1) as u64) == graph(pages, dirs, geo, hwm).push(
                layout::node_in(e, geo),
            )
            &&& place(other, dirs, hwm as int) == (id, slot)
            &&& forall|j: int|
                0 <= j < hwm ==> #[trigger] place(other, dirs, j) == place(pages, dirs, j)
        }),
{
    let tail = dirs.last();
    let other = pages.update(tail.0 as int, q);
    lemma_chain_pages(pages, dirs, dirs.len() - 1);
    lemma_chain_extended(pages, dirs, hwm, (id, slot), q);
    assert(storage::sized(other)) by {
        assert forall|k: int| 0 <= k < other.len() implies (#[trigger] other[k]).len()
            == PAGE_SIZE by {
            assert(pages[k].len() == PAGE_SIZE);
        }
    }
    lemma_longer_directory(pages, other, dirs, geo, hwm, tail, (id, slot));
}

/// `q` holds what the directory page `p` holds, and leads to `next`.
spec fn leads_on(p: Seq<u8>, q: Seq<u8>, next: PageId) -> bool {
    &&& q.len() == PAGE_SIZE
    &&& storage::pd_flags(q) == storage::pd_flags(p)
    &&& page::spec_dir_ordinal(q) == page::spec_dir_ordinal(p)
    &&& page::spec_dir_count(q) == page::spec_dir_count(p)
    &&& page::spec_dir_next(q) == next
    &&& forall|i: int| 0 <= i < 813 ==> #[trigger] dir::target(q, i) == dir::target(p, i)
}

/// `p` is an empty tail at `position`.
spec fn empty_tail(p: Seq<u8>, position: nat) -> bool {
    &&& storage::pd_flags(p) == PAGE_TYPE_DIR
    &&& page::spec_dir_ordinal(p) == position
    &&& page::spec_dir_count(p) == 0
    &&& page::spec_dir_next(p).0 == storage::INVALID_PAGE
}

/// A full tail that leads to an empty one makes a longer chain with the same
/// places.
proof fn lemma_chain_linked(
    pages: Seq<Seq<u8>>,
    dirs: Seq<PageId>,
    hwm: u64,
    next: PageId,
    q: Seq<u8>,
)
    requires
        dir::legal_chain(pages, dirs),
        dir::tail_hwm(pages[dirs.last().0 as int]) == hwm,
        page::spec_dir_count(pages[dirs.last().0 as int]) == 813,
        next.0 < pages.len(),
        next.0 != storage::INVALID_PAGE,
        !dirs.contains(next),
        leads_on(pages[dirs.last().0 as int], q, next),
        empty_tail(pages[next.0 as int], dirs.len()),
    ensures
        ({
            let other = pages.update(dirs.last().0 as int, q);
            let more = dirs.push(next);
            &&& dir::legal_chain(other, more)
            &&& dir::tail_hwm(other[more.last().0 as int]) == hwm
            &&& forall|j: int|
                0 <= j < hwm ==> #[trigger] place(other, more, j) == place(pages, dirs, j)
        }),
{
    let n = dirs.len() - 1;
    let tail = dirs.last();
    let p = pages[tail.0 as int];
    let other = pages.update(tail.0 as int, q);
    let more = dirs.push(next);
    lemma_chain_pages(pages, dirs, n);
    assert(hwm == 813 * dirs.len());
    assert(next != tail) by {
        assert(dirs.contains(dirs[n]));
    }
    assert(more.no_duplicates()) by {
        assert forall|i: int, j: int| 0 <= i < j < more.len() implies more[i] != more[j] by {
            if j == dirs.len() {
                assert(dirs.contains(dirs[i]));
            }
        }
    }
    assert forall|k: int| 0 <= k < more.len() implies (#[trigger] more[k]).0 < other.len()
        && dir::chain_link(other[more[k].0 as int], more[k], k as nat) == Ok::<
        Option<PageId>,
        HnswError,
    >(
        if k + 1 < more.len() {
            Some(more[k + 1])
        } else {
            None
        },
    ) by {
        if k < dirs.len() {
            assert(more[k] == dirs[k]);
            lemma_chain_pages(pages, dirs, k);
            if k < n {
                assert(dirs[k] != dirs[n]);
                assert(more[k + 1] == dirs[k + 1]);
                assert(dir::chain_link(pages[dirs[k].0 as int], dirs[k], k as nat) is Ok);
            }
        }
    }
    assert forall|j: int| 0 <= j < hwm implies #[trigger] place(other, more, j) == place(
        pages,
        dirs,
        j,
    ) by {
        lemma_dir_position(pages, dirs, hwm, j);
        let k = j / 813;
        assert(more[k] == dirs[k]);
        if k < n {
            assert(dirs[k] != dirs[n]);
            lemma_chain_pages(pages, dirs, k);
        } else {
            assert(dir::target(q, j % 813) == dir::target(p, j % 813));
        }
    }
}

/// Nodes that keep their places keep their entries, when a page that is no
/// node page is replaced.
proof fn lemma_nodes_kept(
    pages: Seq<Seq<u8>>,
    dirs: Seq<PageId>,
    other: Seq<Seq<u8>>,
    more: Seq<PageId>,
    geo: NodeGeometry,
    hwm: u64,
    tail: PageId,
)
    requires
        forall|i: int| 0 <= i < hwm ==> #[trigger] placed(pages, dirs, geo, i),
        forall|i: int, j: int|
            0 <= i < j < hwm ==> #[trigger] place(pages, dirs, i) != #[trigger] place(
                pages,
                dirs,
                j,
            ),
        forall|i: int| 0 <= i < hwm ==> #[trigger] place(other, more, i) == place(pages, dirs, i),
        pages.len() == other.len(),
        tail.0 < pages.len(),
        storage::pd_flags(pages[tail.0 as int]) == PAGE_TYPE_DIR,
        forall|k: int| 0 <= k < pages.len() && k != tail.0 ==> other[k] == pages[k],
    ensures
        forall|i: int| 0 <= i < hwm ==> #[trigger] placed(other, more, geo, i),
        forall|i: int, j: int|
            0 <= i < j < hwm ==> #[trigger] place(other, more, i) != #[trigger] place(
                other,
                more,
                j,
            ),
        graph(other, more, geo, hwm) == graph(pages, dirs, geo, hwm),
{
    assert forall|i: int| 0 <= i < hwm implies #[trigger] placed(other, more, geo, i) by {
        assert(placed(pages, dirs, geo, i));
        assert(place(other, more, i) == place(pages, dirs, i));
    }
    assert forall|i: int, j: int| 0 <= i < j < hwm implies #[trigger] place(other, more, i)
        != #[trigger] place(other, more, j) by {
        assert(place(other, more, i) == place(pages, dirs, i));
        assert(place(other, more, j) == place(pages, dirs, j));
    }
    let g = graph(pages, dirs, geo, hwm);
    let h = graph(other, more, geo, hwm);
    assert forall|i: int| 0 <= i < hwm implies h[i] == g[i] by {
        assert(placed(pages, dirs, geo, i));
        assert(place(other, more, i) == place(pages, dirs, i));
    }
    assert(h =~= g);
}

/// A page that is linked, whatever its log position then, leads on.
proof fn lemma_leads_on(p: Seq<u8>, next: PageId, q: Seq<u8>)
    requires
        p.len() == PAGE_SIZE,
        page::spec_dir_count(p) == 813,
        layout::same_past_lsn(apply::dir_linked(p, next), q),
    ensures
        leads_on(p, q, next),
{
    let linked = apply::dir_linked(p, next);
    entry_laws::lemma_dir_link(p, next, 0);
    lemma_dir_page_same(linked, q);
    assert forall|i: int| 0 <= i < 813 implies #[trigger] dir::target(q, i) == dir::target(
        p,
        i,
    ) by {
        entry_laws::lemma_dir_link(p, next, i as u32);
        assert(dir::target(q, i) == dir::target(linked, i));
    }
}

/// Linking a blank directory page behind a full tail changes nothing but the
/// directory.
pub proof fn lemma_dir_page_linked(
    pages: Seq<Seq<u8>>,
    dirs: Seq<PageId>,
    geo: NodeGeometry,
    hwm: u64,
    next: PageId,
    q: Seq<u8>,
)
    requires
        laid_out(pages, dirs, geo, hwm),
        page::spec_dir_count(pages[dirs.last().0 as int]) == 813,
        next.0 < pages.len(),
        next.0 != storage::INVALID_PAGE,
        !dirs.contains(next),
        layout::same_past_lsn(page::blank_dir_page(dirs.len() as u64), pages[next.0 as int]),
        layout::same_past_lsn(apply::dir_linked(pages[dirs.last().0 as int], next), q),
    ensures
        ({
            let other = pages.update(dirs.last().0 as int, q);
            let more = dirs.push(next);
            &&& laid_out(other, more, geo, hwm)
            &&& graph(other, more, geo, hwm) == graph(pages, dirs, geo, hwm)
            &&& forall|j: int|
                0 <= j < hwm ==> #[trigger] place(other, more, j) == place(pages, dirs, j)
        }),
{
    let tail = dirs.last();
    let p = pages[tail.0 as int];
    let other = pages.update(tail.0 as int, q);
    let more = dirs.push(next);
    lemma_chain_pages(pages, dirs, dirs.len() - 1);
    assert(p.len() == PAGE_SIZE);
    lemma_leads_on(p, next, q);
    page::lemma_blank_dir_page(dirs.len() as u64);
    lemma_dir_page_same(page::blank_dir_page(dirs.len() as u64), pages[next.0 as int]);
    lemma_chain_linked(pages, dirs, hwm, next, q);
    lemma_nodes_kept(pages, dirs, other, more, geo, hwm, tail);
    assert(storage::sized(other)) by {
        assert forall|k: int| 0 <= k < other.len() implies (#[trigger] other[k]).len()
            == PAGE_SIZE by {
            assert(pages[k].len() == PAGE_SIZE);
        }
    }
}

} // verus!
