//! The directory: a chain of pages that maps node ids to places.
//!
//! Position is identity: entry `i` of the page with ordinal `o` is the place
//! of node `o * DIR_ENTRIES_PER_PAGE + i`. The number of entries in the whole
//! chain is the high-water mark, the next node id to allocate.

use vstd::prelude::*;

use crate::bytes;
use crate::error::HnswError;
use crate::fault::DirFault;
use crate::fault::Reason;
use crate::page;
use crate::storage;
use crate::storage::Page;
use crate::storage::PageId;
use crate::storage::PageStore;

verus! {

/// Entries on a directory page: `(8192 - 32 - 24) / 10`.
pub const DIR_ENTRIES_PER_PAGE: u32 = 813;

/// Pages in the longest chain that is walked.
pub const MAX_DIR_PAGES: u64 = 0x1_0000_0000;

/// What a walk along a legal chain finds.
#[derive(Debug)]
pub struct DirChainInfo {
    /// Number of pages in the chain, at least 1.
    pub page_count: u64,
    /// The next node id to allocate.
    pub hwm: u64,
    /// The chain's pages in order.
    pub pages: Vec<PageId>,
}

/// Where entry `index` stands on a directory page.
pub open spec fn entry_at(index: int) -> int {
    56 + 10 * index
}

/// The place that entry `index` holds.
pub open spec fn target(p: Seq<u8>, index: int) -> (PageId, u16) {
    (
        PageId(bytes::le64(p, entry_at(index))),
        bytes::le16(p, entry_at(index) + 8),
    )
}

/// What [`dir_entry`] answers.
pub open spec fn entry(p: Seq<u8>, index: u32) -> Result<(PageId, u16), HnswError> {
    let count = page::spec_dir_count(p);
    if count > DIR_ENTRIES_PER_PAGE {
        Err(
            HnswError::Corrupted(
                Reason::Dir(DirFault::CountAbove { what: "dir_entry: directory", count }),
            ),
        )
    } else if index >= count {
        Err(HnswError::Corrupted(Reason::Dir(DirFault::EntryIndex { index, count })))
    } else {
        Ok(target(p, index as int))
    }
}

/// The high-water mark of a chain that ends with the page `p`.
pub open spec fn tail_hwm(p: Seq<u8>) -> int {
    page::spec_dir_ordinal(p) * DIR_ENTRIES_PER_PAGE + page::spec_dir_count(p)
}

/// Where the page `p` with number `id`, at `position` in a chain, leads:
/// nowhere for the tail, else to the next page.
pub open spec fn chain_link(p: Seq<u8>, id: PageId, position: nat) -> Result<
    Option<PageId>,
    HnswError,
> {
    let ordinal = page::spec_dir_ordinal(p);
    let count = page::spec_dir_count(p);
    let next = page::spec_dir_next(p);
    if storage::pd_flags(p) != page::PAGE_TYPE_DIR {
        Err(HnswError::Corrupted(Reason::Dir(DirFault::NotDir { page: id.0 })))
    } else if ordinal != position {
        Err(
            HnswError::Corrupted(
                Reason::Dir(
                    DirFault::Ordinal { page: id.0, ordinal, expected: position as u64 },
                ),
            ),
        )
    } else if count > DIR_ENTRIES_PER_PAGE {
        Err(HnswError::Corrupted(Reason::Dir(DirFault::PageCount { page: id.0, count })))
    } else if next.0 == storage::INVALID_PAGE {
        if tail_hwm(p) > u32::MAX {
            Err(
                HnswError::Corrupted(
                    Reason::Dir(DirFault::NodeIdSpace { hwm: tail_hwm(p) as u64 }),
                ),
            )
        } else {
            Ok(None)
        }
    } else if count != DIR_ENTRIES_PER_PAGE {
        Err(HnswError::Corrupted(Reason::Dir(DirFault::MiddleNotFull { page: id.0, count })))
    } else if next == id {
        Err(HnswError::Corrupted(Reason::Dir(DirFault::SelfLink { page: id.0 })))
    } else {
        Ok(Some(next))
    }
}

/// The pages and the high-water mark of the chain that continues with
/// `current` after the pages `visited`.
pub open spec fn chain_walk(
    pages: Seq<Seq<u8>>,
    context: &'static str,
    visited: Seq<PageId>,
    current: PageId,
) -> Result<(Seq<PageId>, u64), HnswError>
    decreases MAX_DIR_PAGES - visited.len(),
{
    if visited.len() >= MAX_DIR_PAGES {
        Err(HnswError::Corrupted(Reason::Dir(DirFault::Ceiling)))
    } else if visited.contains(current) {
        Err(HnswError::Corrupted(Reason::Dir(DirFault::Cycle { page: current.0 })))
    } else {
        match storage::fetched(pages, current) {
            Err(fault) => Err(HnswError::Storage { context, fault }),
            Ok(p) => match chain_link(p, current, visited.len()) {
                Err(e) => Err(e),
                Ok(None) => Ok((visited.push(current), tail_hwm(p) as u64)),
                Ok(Some(next)) => chain_walk(pages, context, visited.push(current), next),
            },
        }
    }
}

/// What [`check_dir_chain`] answers.
pub open spec fn chain(pages: Seq<Seq<u8>>, context: &'static str, head: PageId) -> Result<
    (Seq<PageId>, u64),
    HnswError,
> {
    if head.0 == storage::INVALID_PAGE {
        Err(HnswError::InvalidArgument(Reason::Dir(DirFault::HeadInvalid)))
    } else {
        chain_walk(pages, context, Seq::empty(), head)
    }
}

/// `ids` are the pages of a legal chain: no page twice, every page a
/// directory page with its position as ordinal, linked in order; every page
/// but the last exactly full, and no more entries than there are node ids.
pub open spec fn legal_chain(pages: Seq<Seq<u8>>, ids: Seq<PageId>) -> bool {
    &&& 1 <= ids.len() <= MAX_DIR_PAGES
    &&& ids.no_duplicates()
    &&& forall|i: int|
        0 <= i < ids.len() ==> (#[trigger] ids[i]).0 < pages.len() && chain_link(
            pages[ids[i].0 as int],
            ids[i],
            i as nat,
        ) == Ok::<Option<PageId>, HnswError>(
            if i + 1 < ids.len() {
                Some(ids[i + 1])
            } else {
                None
            },
        )
}

/// The first `n` pages of a legal chain have been walked.
proof fn lemma_walk_legal(
    pages: Seq<Seq<u8>>,
    context: &'static str,
    ids: Seq<PageId>,
    n: int,
)
    requires
        legal_chain(pages, ids),
        0 <= n < ids.len(),
    ensures
        chain_walk(pages, context, ids.take(n), ids[n]) == Ok::<(Seq<PageId>, u64), HnswError>(
            (ids, tail_hwm(pages[ids.last().0 as int]) as u64),
        ),
    decreases ids.len() - n,
{
    let visited = ids.take(n);
    assert(!visited.contains(ids[n])) by {
        if visited.contains(ids[n]) {
            let j = choose|j: int| 0 <= j < visited.len() && visited[j] == ids[n];
            assert(ids[j] == ids[n]);
        }
    }
    assert(visited.push(ids[n]) =~= ids.take(n + 1));
    if n + 1 < ids.len() {
        lemma_walk_legal(pages, context, ids, n + 1);
    } else {
        assert(ids.take(n + 1) =~= ids);
    }
}

/// A walk that succeeds has walked a legal chain.
proof fn lemma_walk_sound(
    pages: Seq<Seq<u8>>,
    context: &'static str,
    visited: Seq<PageId>,
    current: PageId,
)
    requires
        visited.no_duplicates(),
        forall|i: int|
            0 <= i < visited.len() ==> (#[trigger] visited[i]).0 < pages.len() && chain_link(
                pages[visited[i].0 as int],
                visited[i],
                i as nat,
            ) == Ok::<Option<PageId>, HnswError>(
                Some(
                    if i + 1 < visited.len() {
                        visited[i + 1]
                    } else {
                        current
                    },
                ),
            ),
    ensures
        chain_walk(pages, context, visited, current) matches Ok(r) ==> {
            &&& legal_chain(pages, r.0)
            &&& visited.len() < r.0.len()
            &&& r.0.take(visited.len() as int) == visited
            &&& r.0[visited.len() as int] == current
            &&& r.1 == tail_hwm(pages[r.0.last().0 as int])
            &&& r.1 <= u32::MAX
        },
    decreases MAX_DIR_PAGES - visited.len(),
{
    if visited.len() < MAX_DIR_PAGES && !visited.contains(current) && current.0 < pages.len() {
        let p = pages[current.0 as int];
        let more = visited.push(current);
        assert(more.no_duplicates());
        assert(more.take(visited.len() as int) =~= visited);
        match chain_link(p, current, visited.len()) {
            Ok(Some(next)) => {
                lemma_walk_sound(pages, context, more, next);
                if let Ok(r) = chain_walk(pages, context, more, next) {
                    assert(r.0.take(visited.len() as int) =~= more.take(visited.len() as int));
                    assert(r.0[visited.len() as int] == more[visited.len() as int]);
                }
            },
            _ => {},
        }
    }
}

/// The walk from `head` finds exactly the legal chains: it succeeds if and
/// only if the pages from `head` on form one, and then gives its pages and
/// its number of entries.
pub proof fn lemma_chain_is_the_legal_chain(
    pages: Seq<Seq<u8>>,
    context: &'static str,
    head: PageId,
    ids: Seq<PageId>,
)
    requires
        head.0 != storage::INVALID_PAGE,
    ensures
        (legal_chain(pages, ids) && ids[0] == head) <==> (chain(pages, context, head) matches Ok(r)
            && r.0 == ids),
        chain(pages, context, head) matches Ok(r) ==> r.1 == tail_hwm(
            pages[r.0.last().0 as int],
        ) && r.1 <= u32::MAX,
{
    lemma_walk_sound(pages, context, Seq::empty(), head);
    if legal_chain(pages, ids) && ids[0] == head {
        lemma_walk_legal(pages, context, ids, 0);
        assert(ids.take(0) =~= Seq::<PageId>::empty());
    }
}

/// Checks that the high-water mark fits the node-id space.
pub fn check_hwm_node_id_space(hwm: u64) -> (r: Result<(), HnswError>)
    ensures
        r == (if hwm > u32::MAX {
            Err::<(), HnswError>(
                HnswError::Corrupted(Reason::Dir(DirFault::NodeIdSpace { hwm })),
            )
        } else {
            Ok(())
        }),
{
    if hwm > u32::MAX as u64 {
        return Err(HnswError::Corrupted(Reason::Dir(DirFault::NodeIdSpace { hwm })));
    }
    Ok(())
}

/// Whether a page is in a list.
fn holds_page(ids: &Vec<PageId>, id: PageId) -> (r: bool)
    ensures
        r == ids@.contains(id),
{
    let mut i: usize = 0;
    while i < ids.len()
        invariant
            i <= ids@.len(),
            forall|j: int| 0 <= j < i ==> ids@[j] != id,
        decreases ids@.len() - i,
    {
        if ids[i].0 == id.0 {
            assert(ids@[i as int] == id);
            return true;
        }
        i = i + 1;
    }
    false
}

/// Where the page `p` with number `id`, at `position` in a chain, leads.
fn check_link(p: &Page, id: PageId, position: u64) -> (r: Result<Option<PageId>, HnswError>)
    requires
        position < MAX_DIR_PAGES,
    ensures
        r == chain_link(p@, id, position as nat),
        r is Ok ==> 0 <= tail_hwm(p@) <= u64::MAX,
        r is Ok ==> page::spec_dir_ordinal(p@) == position,
{
    if page::page_type(p) != page::PAGE_TYPE_DIR {
        return Err(HnswError::Corrupted(Reason::Dir(DirFault::NotDir { page: id.0 })));
    }
    let ordinal: u64 = page::dir_ordinal(p);
    if ordinal != position {
        return Err(
            HnswError::Corrupted(
                Reason::Dir(DirFault::Ordinal { page: id.0, ordinal, expected: position }),
            ),
        );
    }
    let count: u32 = page::dir_count(p);
    if count > DIR_ENTRIES_PER_PAGE {
        return Err(
            HnswError::Corrupted(Reason::Dir(DirFault::PageCount { page: id.0, count })),
        );
    }
    let next: PageId = page::dir_next(p);
    if next.0 == storage::INVALID_PAGE {
        let hwm: u64 = ordinal * DIR_ENTRIES_PER_PAGE as u64 + count as u64;
        match check_hwm_node_id_space(hwm) {
            Err(e) => {
                return Err(e);
            },
            Ok(_) => {
                return Ok(None);
            },
        }
    }
    if count != DIR_ENTRIES_PER_PAGE {
        return Err(
            HnswError::Corrupted(Reason::Dir(DirFault::MiddleNotFull { page: id.0, count })),
        );
    }
    if next.0 == id.0 {
        return Err(HnswError::Corrupted(Reason::Dir(DirFault::SelfLink { page: id.0 })));
    }
    Ok(Some(next))
}

/// Walks the directory chain from `head`, checks it, and derives the
/// high-water mark. A page that is not in the store is reported with
/// `context`.
///
/// The ordinals count up from 0; every page but the last is exactly full;
/// the links form one chain without a cycle; every page is a directory page
/// and its count is within its capacity.
pub fn check_dir_chain(head: PageId, store: &PageStore, context: &'static str) -> (r: Result<
    DirChainInfo,
    HnswError,
>)
    ensures
        match chain(store@, context, head) {
            Err(e) => r == Err::<DirChainInfo, HnswError>(e),
            Ok((ids, hwm)) => {
                &&& r matches Ok(info)
                &&& info.pages@ == ids
                &&& info.page_count == ids.len()
                &&& info.hwm == hwm
            },
        },
{
    if head.0 == storage::INVALID_PAGE {
        return Err(HnswError::InvalidArgument(Reason::Dir(DirFault::HeadInvalid)));
    }
    let mut visited: Vec<PageId> = Vec::new();
    let mut current: PageId = head;
    assert(visited@ =~= Seq::<PageId>::empty());
    while (visited.len() as u64) < MAX_DIR_PAGES
        invariant
            chain_walk(store@, context, visited@, current) == chain(store@, context, head),
        decreases MAX_DIR_PAGES - visited@.len(),
    {
        if holds_page(&visited, current) {
            return Err(
                HnswError::Corrupted(Reason::Dir(DirFault::Cycle { page: current.0 })),
            );
        }
        let p: Page = match store.pin(current) {
            Err(fault) => {
                return Err(HnswError::Storage { context, fault });
            },
            Ok(p) => p,
        };
        let position: u64 = visited.len() as u64;
        match check_link(&p, current, position) {
            Err(e) => {
                return Err(e);
            },
            Ok(None) => {
                let hwm: u64 = position * DIR_ENTRIES_PER_PAGE as u64 + page::dir_count(&p) as u64;
                visited.push(current);
                return Ok(DirChainInfo { page_count: position + 1, hwm, pages: visited });
            },
            Ok(Some(next)) => {
                visited.push(current);
                current = next;
            },
        }
    }
    Err(HnswError::Corrupted(Reason::Dir(DirFault::Ceiling)))
}

/// Reads the entry `index` of a directory page.
pub fn dir_entry(p: &Page, index: u32) -> (r: Result<(PageId, u16), HnswError>)
    ensures
        r == entry(p@, index),
{
    let count: u32 = page::dir_count(p);
    if count > DIR_ENTRIES_PER_PAGE {
        return Err(
            HnswError::Corrupted(Reason::Dir(DirFault::CountAbove { what: "dir_entry: directory", count })),
        );
    }
    if index >= count {
        return Err(HnswError::Corrupted(Reason::Dir(DirFault::EntryIndex { index, count })));
    }
    let off: usize = 56 + 10 * index as usize;
    Ok((PageId(bytes::get_u64(p, off)), bytes::get_u16(p, off + 8)))
}

} // verus!
