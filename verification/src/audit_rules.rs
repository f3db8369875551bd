//! What the audit accepts, of whatever pages, in terms of what they hold, and
//! what its report counts.

use vstd::prelude::*;

use vstd::arithmetic::power;

use crate::apply;
use crate::audit;
use crate::audit::AuditReport;
use crate::audit::Entry;
use crate::bytes;
use crate::check_laws;
use crate::dir;
use crate::entry_laws;
use crate::error::HnswError;
use crate::graph::Metric;
use crate::layout;
use crate::meta;
use crate::meta::MetaParams;
use crate::node::NodeGeometry;
use crate::page;
use crate::paged;
use crate::replay_laws;
use crate::rng;
use crate::soundness;
use crate::storage;
use crate::storage::PageId;
use crate::storage::PAGE_SIZE;

verus! {

// ---------------------------------------------------------------------
// Entries.
// ---------------------------------------------------------------------

/// The place of node `i`: 813 to a directory page, in order.
#[verifier::opaque]
pub open spec fn place_at(pages: Seq<Seq<u8>>, dirs: Seq<PageId>, i: int) -> (PageId, u16) {
    dir::target(pages[dirs[i / 813].0 as int], i % 813)
}

/// The page of node `i`.
pub open spec fn page_at(pages: Seq<Seq<u8>>, dirs: Seq<PageId>, i: int) -> Seq<u8> {
    pages[place_at(pages, dirs, i).0.0 as int]
}

/// The state byte of node `i`.
#[verifier::opaque]
pub open spec fn byte_at(pages: Seq<Seq<u8>>, dirs: Seq<PageId>, q: MetaParams, i: int) -> u8 {
    replay_laws::state_at(page_at(pages, dirs, i), place_at(pages, dirs, i).1, q.dim)->0
}

/// The entry of node `i` is sound: it stands on a node page, in an occupied
/// slot, with a vector that the metric can serve, and in a state that nodes
/// can be in: on a level that a draw can give, and deleted only if live.
#[verifier::opaque]
pub open spec fn entry_sound(
    pages: Seq<Seq<u8>>,
    dirs: Seq<PageId>,
    q: MetaParams,
    i: int,
) -> bool {
    let (id, slot) = place_at(pages, dirs, i);
    let p = pages[id.0 as int];
    let b = byte_at(pages, dirs, q, i);
    &&& id.0 < pages.len()
    &&& storage::pd_flags(p) == 1
    &&& replay_laws::state_at(p, slot, q.dim) is Some
    &&& apply::vector_of(p, slot, q.dim) matches Ok(v) && {
        &&& check_laws::usable_vector(v)
        &&& q.metric == Metric::Cosine ==> check_laws::nonzero_vector(v)
    }
    &&& power::pow(q.m as int, (b & 0x3f) as nat) <= 0x20_0000_0000_0000
    &&& b & 0x80 != 0 ==> b & 0x40 != 0
}

/// No two of the first `n` nodes have the same place.
pub open spec fn places_differ(pages: Seq<Seq<u8>>, dirs: Seq<PageId>, n: int) -> bool {
    forall|i: int, j: int|
        0 <= i < j < n ==> #[trigger] place_at(pages, dirs, i) != #[trigger] place_at(
            pages,
            dirs,
            j,
        )
}

/// A directory resolves its nodes to their places.
proof fn lemma_resolves(
    pages: Seq<Seq<u8>>,
    dirs: Seq<PageId>,
    hwm: u64,
    i: int,
)
    requires
        dir::legal_chain(pages, dirs),
        dir::tail_hwm(pages[dirs.last().0 as int]) == hwm,
        0 <= i < hwm,
    ensures
        paged::resolved(pages, dirs, i as u32) == Ok::<(PageId, u16), HnswError>(
            place_at(pages, dirs, i),
        ),
        i <= u32::MAX,
{
    reveal(place_at);
    soundness::lemma_dir_position(pages, dirs, hwm, i);
    soundness::lemma_chain_pages(pages, dirs, i / 813);
}

/// The checks on a slot that holds an entry come down to its vector and its
/// state byte.
proof fn lemma_slot_checked(p: Seq<u8>, slot: u16, q: MetaParams, id: u64)
    requires
        p.len() == PAGE_SIZE,
        apply::lp(p, slot) is Some,
        2 <= q.m,
        1 <= q.dim,
    ensures
        ({
            let s = audit::state_check(p, slot, q, id);
            let b = replay_laws::state_at(p, slot, q.dim);
            let v = apply::vector_of(p, slot, q.dim);
            &&& apply::slots(p) matches Ok(n) && slot < n
            &&& audit::stored_vector_check(p, slot, q, id) is Ok <==> {
                &&& v is Ok
                &&& check_laws::usable_vector(v->Ok_0)
                &&& q.metric == Metric::Cosine ==> check_laws::nonzero_vector(v->Ok_0)
            }
            &&& s is Ok <==> {
                &&& b is Some
                &&& power::pow(q.m as int, (b->0 & 0x3f) as nat) <= 0x20_0000_0000_0000
                &&& b->0 & 0x80 != 0 ==> b->0 & 0x40 != 0
            }
            &&& s is Ok ==> s->Ok_0 == (b->0 & 0x3f, b->0 & 0x40 != 0, b->0 & 0x80 != 0)
        }),
{
    let (off, len) = apply::lp(p, slot)->0;
    entry_laws::lemma_lp_bounds(p, slot);
    rng::lemma_top_level_bound(q.m as nat);
    let e = p.subrange(off as int, off + len);
    if 4 * q.dim < len {
        let b = e[4 * q.dim as int];
        replay_laws::lemma_state_byte(b);
        check_laws::lemma_top_level(q.m as nat, (b & 0x3f) as nat);
    }
    let v = bytes::words_at(e, 0, q.dim as nat);
    check_laws::lemma_vector_accepted(Metric::Cosine, v);
    check_laws::lemma_vector_accepted(Metric::L2, v);
}

/// What the checks say of node `i` after nodes with the places `seen`.
#[verifier::opaque]
spec fn checked(
    pages: Seq<Seq<u8>>,
    dirs: Seq<PageId>,
    q: MetaParams,
    seen: Seq<(PageId, u16)>,
    i: int,
) -> Result<Entry, HnswError> {
    audit::entry_check(pages, dirs, q, seen, i as u64)
}

/// The entry of a node as the audit keeps it.
spec fn kept(pages: Seq<Seq<u8>>, dirs: Seq<PageId>, q: MetaParams, i: int) -> Entry {
    let b = byte_at(pages, dirs, q, i);
    Entry {
        place: place_at(pages, dirs, i),
        top: b & 0x3f,
        live: b & 0x40 != 0,
        tombstoned: b & 0x80 != 0,
    }
}

/// An entry passes the checks if and only if it is sound and its place is new.
proof fn lemma_entry_checked(
    pages: Seq<Seq<u8>>,
    dirs: Seq<PageId>,
    q: MetaParams,
    hwm: u64,
    seen: Seq<(PageId, u16)>,
    i: int,
)
    requires
        storage::sized(pages),
        dir::legal_chain(pages, dirs),
        dir::tail_hwm(pages[dirs.last().0 as int]) == hwm,
        0 <= i < hwm,
        2 <= q.m,
        1 <= q.dim,
    ensures
        ({
            let r = checked(pages, dirs, q, seen, i);
            &&& r is Ok <==> entry_sound(pages, dirs, q, i) && !seen.contains(
                place_at(pages, dirs, i),
            )
            &&& r is Ok ==> r->Ok_0 == kept(pages, dirs, q, i)
        }),
{
    lemma_resolves(pages, dirs, hwm, i);
    let (id, slot) = place_at(pages, dirs, i);
    if id.0 < pages.len() {
        let p = pages[id.0 as int];
        assert(p.len() == PAGE_SIZE);
        if apply::lp(p, slot) is Some {
            lemma_slot_checked(p, slot, q, i as u64);
        }
    }
    reveal(checked);
    reveal(entry_sound);
    reveal(byte_at);
}

/// The entries of the first `n` nodes, as the audit lists them.
#[verifier::opaque]
spec fn listed(pages: Seq<Seq<u8>>, dirs: Seq<PageId>, q: MetaParams, n: nat) -> Result<
    Seq<Entry>,
    HnswError,
> {
    audit::entries(pages, dirs, q, n)
}

/// The list grows node by node.
proof fn lemma_listed_step(pages: Seq<Seq<u8>>, dirs: Seq<PageId>, q: MetaParams, n: nat)
    requires
        n <= u32::MAX,
    ensures
        listed(pages, dirs, q, 0) == Ok::<Seq<Entry>, HnswError>(Seq::empty()),
        n > 0 ==> {
            let before = listed(pages, dirs, q, (n - 1) as nat);
            let r = checked(pages, dirs, q, audit::places(before->Ok_0), n - 1);
            &&& listed(pages, dirs, q, n) is Ok <==> before is Ok && r is Ok
            &&& listed(pages, dirs, q, n) is Ok ==> listed(pages, dirs, q, n)->Ok_0
                == before->Ok_0.push(r->Ok_0)
        },
{
    reveal(listed);
    reveal(checked);
}

/// The first `n` nodes are listed as they are.
spec fn listed_as_kept(
    pages: Seq<Seq<u8>>,
    dirs: Seq<PageId>,
    q: MetaParams,
    es: Seq<Entry>,
    n: nat,
) -> bool {
    &&& es.len() == n
    &&& forall|i: int| 0 <= i < n ==> #[trigger] es[i] == kept(pages, dirs, q, i)
}

/// A place is among those seen if and only if an earlier node has it.
proof fn lemma_seen(
    pages: Seq<Seq<u8>>,
    dirs: Seq<PageId>,
    q: MetaParams,
    es: Seq<Entry>,
    n: nat,
    x: (PageId, u16),
)
    requires
        listed_as_kept(pages, dirs, q, es, n),
    ensures
        audit::places(es).contains(x) <==> exists|i: int|
            0 <= i < n && #[trigger] place_at(pages, dirs, i) == x,
{
    let seen = audit::places(es);
    if seen.contains(x) {
        let i = choose|i: int| 0 <= i < seen.len() && seen[i] == x;
        assert(es[i] == kept(pages, dirs, q, i));
        assert(place_at(pages, dirs, i) == x);
    }
    if exists|i: int| 0 <= i < n && #[trigger] place_at(pages, dirs, i) == x {
        let i = choose|i: int| 0 <= i < n && #[trigger] place_at(pages, dirs, i) == x;
        assert(es[i] == kept(pages, dirs, q, i));
        assert(seen[i] == x);
    }
}

/// The entries pass the checks if and only if all are sound and no two have
/// the same place.
proof fn lemma_entries_checked(
    pages: Seq<Seq<u8>>,
    dirs: Seq<PageId>,
    q: MetaParams,
    hwm: u64,
    n: nat,
)
    requires
        storage::sized(pages),
        dir::legal_chain(pages, dirs),
        dir::tail_hwm(pages[dirs.last().0 as int]) == hwm,
        n <= hwm <= u32::MAX,
        2 <= q.m,
        1 <= q.dim,
    ensures
        ({
            let r = listed(pages, dirs, q, n);
            &&& r is Ok <==> places_differ(pages, dirs, n as int) && forall|i: int|
                0 <= i < n ==> #[trigger] entry_sound(pages, dirs, q, i)
            &&& r is Ok ==> listed_as_kept(pages, dirs, q, r->Ok_0, n)
        }),
    decreases n,
{
    lemma_listed_step(pages, dirs, q, n);
    if n > 0 {
        let m = (n - 1) as nat;
        lemma_entries_checked(pages, dirs, q, hwm, m);
        let before = listed(pages, dirs, q, m);
        if before is Ok {
            let es = before->Ok_0;
            let last = place_at(pages, dirs, n - 1);
            lemma_seen(pages, dirs, q, es, m, last);
            lemma_entry_checked(pages, dirs, q, hwm, audit::places(es), n - 1);
        }
    }
}

// ---------------------------------------------------------------------
// Edges.
// ---------------------------------------------------------------------

/// The list of node `i` on a level is sound: it can be read, ascends, does not
/// hold the node itself, and leads to nodes that there are and that have the
/// level.
#[verifier::opaque]
pub open spec fn list_sound(
    pages: Seq<Seq<u8>>,
    dirs: Seq<PageId>,
    q: MetaParams,
    hwm: int,
    i: int,
    level: int,
) -> bool {
    let geo = NodeGeometry { dim: q.dim, m: q.m, m_max0: q.m_max0 };
    let slot = place_at(pages, dirs, i).1;
    let r = apply::neighbors_of(page_at(pages, dirs, i), slot, geo, level as u8);
    r matches Ok(list) && {
        &&& forall|a: int, b: int| 0 <= a < b < list.len() ==> list[a] < list[b]
        &&& forall|a: int|
            0 <= a < list.len() ==> {
                &&& (#[trigger] list[a]) != i
                &&& list[a] < hwm
                &&& level <= byte_at(pages, dirs, q, list[a] as int) & 0x3f
            }
    }
}

/// No edge of a list is at fault if and only if every one leads to another
/// node that there is and that has the level.
proof fn lemma_edge_checked(tops: Seq<u8>, id: u64, level: u8, list: Seq<u32>, n: nat)
    requires
        n <= list.len(),
    ensures
        audit::edge_fault(tops, id, level, list, n) is None <==> forall|a: int|
            0 <= a < n ==> {
                &&& (#[trigger] list[a]) != id
                &&& list[a] < tops.len()
                &&& level <= tops[list[a] as int]
            },
    decreases n,
{
    if n > 0 {
        lemma_edge_checked(tops, id, level, list, (n - 1) as nat);
    }
}

/// The levels of a node pass the checks if and only if their lists are sound.
proof fn lemma_levels_checked(
    pages: Seq<Seq<u8>>,
    dirs: Seq<PageId>,
    q: MetaParams,
    tops: Seq<u8>,
    i: int,
    n: nat,
)
    requires
        n <= 256,
        0 <= i < tops.len() <= u32::MAX,
        forall|j: int| 0 <= j < tops.len() ==> #[trigger] tops[j] == byte_at(pages, dirs, q, j) & 0x3f,
    ensures
        audit::levels_edges(
            page_at(pages, dirs, i),
            place_at(pages, dirs, i).1,
            audit::geometry(q),
            tops,
            i as u64,
            n,
        ) is Ok <==> forall|l: int|
            0 <= l < n ==> #[trigger] list_sound(pages, dirs, q, tops.len() as int, i, l),
    decreases n,
{
    if n > 0 {
        lemma_levels_checked(pages, dirs, q, tops, i, (n - 1) as nat);
        reveal(list_sound);
        let p = page_at(pages, dirs, i);
        let slot = place_at(pages, dirs, i).1;
        let level = (n - 1) as u8;
        if let Ok(list) = apply::neighbors_of(p, slot, audit::geometry(q), level) {
            lemma_edge_checked(tops, i as u64, level, list, list.len());
        }
        assert(audit::level_edges(p, slot, audit::geometry(q), tops, i as u64, level) is Ok
            <==> list_sound(pages, dirs, q, tops.len() as int, i, n - 1));
    }
}

/// Every list of node `i` is sound.
#[verifier::opaque]
spec fn lists_sound(
    pages: Seq<Seq<u8>>,
    dirs: Seq<PageId>,
    q: MetaParams,
    hwm: int,
    i: int,
) -> bool {
    forall|l: int|
        0 <= l <= byte_at(pages, dirs, q, i) & 0x3f ==> #[trigger] list_sound(
            pages,
            dirs,
            q,
            hwm,
            i,
            l,
        )
}

/// What the checks say of the edges of node `i`.
#[verifier::opaque]
spec fn edges_checked(
    pages: Seq<Seq<u8>>,
    dirs: Seq<PageId>,
    q: MetaParams,
    tops: Seq<u8>,
    i: int,
) -> bool {
    audit::node_edges(pages, dirs, audit::geometry(q), tops, i as u64) is Ok
}

/// The edges of a node pass the checks if and only if all its lists are sound.
proof fn lemma_node_edges_checked(
    pages: Seq<Seq<u8>>,
    dirs: Seq<PageId>,
    q: MetaParams,
    tops: Seq<u8>,
    hwm: u64,
    i: int,
)
    requires
        dir::legal_chain(pages, dirs),
        dir::tail_hwm(pages[dirs.last().0 as int]) == hwm,
        0 <= i < hwm <= u32::MAX,
        tops.len() == hwm,
        forall|j: int| 0 <= j < tops.len() ==> #[trigger] tops[j] == byte_at(pages, dirs, q, j) & 0x3f,
        entry_sound(pages, dirs, q, i),
    ensures
        edges_checked(pages, dirs, q, tops, i) <==> lists_sound(pages, dirs, q, hwm as int, i),
{
    lemma_resolves(pages, dirs, hwm, i);
    assert(place_at(pages, dirs, i).0.0 < pages.len()) by {
        reveal(entry_sound);
    }
    lemma_levels_checked(pages, dirs, q, tops, i, (tops[i] + 1) as nat);
    reveal(lists_sound);
    reveal(edges_checked);
    if !lists_sound(pages, dirs, q, hwm as int, i) {
        let l = choose|l: int|
            0 <= l <= byte_at(pages, dirs, q, i) & 0x3f && !#[trigger] list_sound(
                pages,
                dirs,
                q,
                hwm as int,
                i,
                l,
            );
        assert(0 <= l < tops[i] + 1);
    }
}

/// The edges of the first nodes pass the checks if and only if those of each
/// do.
proof fn lemma_edges_checked(
    pages: Seq<Seq<u8>>,
    dirs: Seq<PageId>,
    q: MetaParams,
    tops: Seq<u8>,
    n: nat,
)
    requires
        n <= u32::MAX,
    ensures
        audit::edges(pages, dirs, audit::geometry(q), tops, n) is Ok <==> forall|i: int|
            0 <= i < n ==> #[trigger] edges_checked(pages, dirs, q, tops, i),
    decreases n,
{
    if n > 0 {
        lemma_edges_checked(pages, dirs, q, tops, (n - 1) as nat);
        assert(edges_checked(pages, dirs, q, tops, n - 1) == audit::node_edges(
            pages,
            dirs,
            audit::geometry(q),
            tops,
            (n - 1) as u64,
        ) is Ok) by {
            reveal(edges_checked);
        }
    }
}

// ---------------------------------------------------------------------
// Counts.
// ---------------------------------------------------------------------

/// How many of the first `n` numbers have a property.
pub open spec fn count(n: nat, f: spec_fn(int) -> bool) -> nat
    decreases n,
{
    if n == 0 {
        0
    } else {
        count((n - 1) as nat, f) + if f(n - 1) {
            1nat
        } else {
            0
        }
    }
}

/// The places on the pages of the first `n` nodes that hold an entry and are
/// no node's.
pub open spec fn orphan_places(
    pages: Seq<Seq<u8>>,
    dirs: Seq<PageId>,
    n: int,
) -> Set<(PageId, u16)> {
    Set::new(
        |x: (PageId, u16)|
            {
                &&& exists|i: int| 0 <= i < n && (#[trigger] place_at(pages, dirs, i)).0 == x.0
                &&& layout::slot_bytes(pages[x.0.0 as int], x.1) is Some
                &&& forall|i: int| 0 <= i < n ==> #[trigger] place_at(pages, dirs, i) != x
            },
    )
}

/// The counts of entries are counts of nodes.
proof fn lemma_counted(
    pages: Seq<Seq<u8>>,
    dirs: Seq<PageId>,
    q: MetaParams,
    es: Seq<Entry>,
    n: nat,
)
    requires
        n <= es.len(),
        forall|i: int|
            0 <= i < es.len() ==> {
                let b = byte_at(pages, dirs, q, i);
                &&& (#[trigger] es[i]).top == b & 0x3f
                &&& es[i].live == (b & 0x40 != 0)
                &&& es[i].tombstoned == (b & 0x80 != 0)
            },
    ensures
        audit::live(es.take(n as int)) == count(
            n,
            |i: int| byte_at(pages, dirs, q, i) & 0x40 != 0,
        ),
        audit::tombstoned(es.take(n as int)) == count(
            n,
            |i: int| byte_at(pages, dirs, q, i) & 0x80 != 0,
        ),
        audit::hidden(audit::tops(es.take(n as int)), q.max_level) == count(
            n,
            |i: int| byte_at(pages, dirs, q, i) & 0x3f > q.max_level,
        ),
        audit::live(es.take(n as int)) <= n,
        audit::tombstoned(es.take(n as int)) <= n,
        audit::hidden(audit::tops(es.take(n as int)), q.max_level) <= n,
    decreases n,
{
    if n > 0 {
        lemma_counted(pages, dirs, q, es, (n - 1) as nat);
        assert(es.take(n as int).drop_last() =~= es.take(n - 1));
        assert(audit::tops(es.take(n as int)).drop_last() =~= audit::tops(es.take(n - 1)));
        assert(es.take(n as int).last() == es[n - 1]);
    }
}

/// The occupied slots below `n` of a page that have no name.
spec fn unnamed(p: Seq<u8>, id: PageId, named: Seq<(PageId, u16)>, n: int) -> Set<(PageId, u16)> {
    Set::new(
        |x: (PageId, u16)|
            x.0 == id && x.1 < n && apply::lp(p, x.1) is Some && !named.contains(x),
    )
}

/// The count of a page is that of its unnamed slots.
proof fn lemma_page_orphans(p: Seq<u8>, id: PageId, named: Seq<(PageId, u16)>, n: nat)
    requires
        n <= 0x1_0000,
    ensures
        unnamed(p, id, named, n as int).finite(),
        unnamed(p, id, named, n as int).len() == audit::orphans_on(p, id, named, n),
        audit::orphans_on(p, id, named, n) <= n,
    decreases n,
{
    if n == 0 {
        assert(unnamed(p, id, named, 0) =~= Set::empty());
    } else {
        lemma_page_orphans(p, id, named, (n - 1) as nat);
        let slot = (n - 1) as u16;
        let a = unnamed(p, id, named, n - 1);
        let b = unnamed(p, id, named, n as int);
        if apply::lp(p, slot) is Some && !named.contains((id, slot)) {
            assert(b =~= a.insert((id, slot)));
        } else {
            assert(b =~= a);
        }
    }
}

/// The unnamed slots of pages.
spec fn unnamed_on(
    pages: Seq<Seq<u8>>,
    ids: Seq<PageId>,
    named: Seq<(PageId, u16)>,
) -> Set<(PageId, u16)> {
    Set::new(
        |x: (PageId, u16)|
            ids.contains(x.0) && apply::lp(pages[x.0.0 as int], x.1) is Some && !named.contains(x),
    )
}

/// The count over pages is that of their unnamed slots.
proof fn lemma_pages_orphans(
    pages: Seq<Seq<u8>>,
    ids: Seq<PageId>,
    named: Seq<(PageId, u16)>,
)
    requires
        ids.no_duplicates(),
        forall|k: int|
            0 <= k < ids.len() ==> (#[trigger] ids[k]).0 < pages.len() && apply::slots(
                pages[ids[k].0 as int],
            ) is Ok,
    ensures
        unnamed_on(pages, ids, named).finite(),
        unnamed_on(pages, ids, named).len() == audit::orphans(pages, ids, named),
        audit::orphans(pages, ids, named) <= ids.len() * 0x1_0000,
    decreases ids.len(),
{
    if ids.len() == 0 {
        assert(unnamed_on(pages, ids, named) =~= Set::empty());
    } else {
        let front = ids.drop_last();
        let id = ids.last();
        let p = pages[id.0 as int];
        assert(apply::slots(pages[ids[ids.len() - 1].0 as int]) is Ok);
        let n = audit::slots_of(p);
        assert(front.no_duplicates());
        assert forall|k: int| 0 <= k < front.len() implies (#[trigger] front[k]).0 < pages.len()
            && apply::slots(pages[front[k].0 as int]) is Ok by {
            assert(front[k] == ids[k]);
        }
        lemma_pages_orphans(pages, front, named);
        lemma_page_orphans(p, id, named, n);
        let a = unnamed_on(pages, front, named);
        let b = unnamed(p, id, named, n as int);
        assert(!front.contains(id)) by {
            if front.contains(id) {
                let k = choose|k: int| 0 <= k < front.len() && front[k] == id;
                assert(ids[k] == ids[ids.len() - 1]);
            }
        }
        assert forall|x: PageId| ids.contains(x) <==> front.contains(x) || x == id by {
            if ids.contains(x) {
                let k = choose|k: int| 0 <= k < ids.len() && ids[k] == x;
                if k < front.len() {
                    assert(front[k] == x);
                }
            }
            if front.contains(x) {
                let k = choose|k: int| 0 <= k < front.len() && front[k] == x;
                assert(ids[k] == x);
            }
            if x == id {
                assert(ids[ids.len() - 1] == x);
            }
        }
        assert(unnamed_on(pages, ids, named) =~= a.union(b));
        assert(a.disjoint(b));
        vstd::set_lib::lemma_set_disjoint_lens(a, b);
    }
}

/// The pages that entries stand on, each once.
proof fn lemma_referenced(es: Seq<Entry>)
    ensures
        audit::referenced(es).no_duplicates(),
        audit::referenced(es).len() <= es.len(),
        forall|id: PageId| #[trigger]
            audit::referenced(es).contains(id) <==> exists|i: int|
                0 <= i < es.len() && (#[trigger] es[i]).place.0 == id,
    decreases es.len(),
{
    if es.len() > 0 {
        let front = es.drop_last();
        let last = es.last().place.0;
        lemma_referenced(front);
        let before = audit::referenced(front);
        let all = audit::referenced(es);
        assert forall|id: PageId| #[trigger] all.contains(id) <==> exists|i: int|
            0 <= i < es.len() && (#[trigger] es[i]).place.0 == id by {
            assert(all.contains(id) <==> before.contains(id) || id == last) by {
                if !before.contains(last) {
                    assert(all == before.push(last));
                    if before.contains(id) {
                        let k = choose|k: int| 0 <= k < before.len() && before[k] == id;
                        assert(all[k] == id);
                    }
                    assert(all[before.len() as int] == last);
                    if all.contains(id) && id != last {
                        let k = choose|k: int| 0 <= k < all.len() && all[k] == id;
                        assert(before[k] == id);
                    }
                }
            }
            if before.contains(id) {
                let i = choose|i: int| 0 <= i < front.len() && (#[trigger] front[i]).place.0 == id;
                assert(es[i].place.0 == id);
            }
            if id == last {
                assert(es[es.len() - 1].place.0 == id);
            }
            if exists|i: int| 0 <= i < es.len() && (#[trigger] es[i]).place.0 == id {
                let i = choose|i: int| 0 <= i < es.len() && (#[trigger] es[i]).place.0 == id;
                if i < front.len() {
                    assert(front[i].place.0 == id);
                }
            }
        }
    }
}

/// The orphans that are counted are the places that no node has.
proof fn lemma_orphans_counted(
    pages: Seq<Seq<u8>>,
    dirs: Seq<PageId>,
    q: MetaParams,
    es: Seq<Entry>,
)
    requires
        es.len() <= u32::MAX,
        forall|i: int| 0 <= i < es.len() ==> #[trigger] entry_sound(pages, dirs, q, i),
        forall|i: int| 0 <= i < es.len() ==> (#[trigger] es[i]).place == place_at(pages, dirs, i),
    ensures
        orphan_places(pages, dirs, es.len() as int).finite(),
        audit::orphans(pages, audit::referenced(es), audit::places(es)) == orphan_places(
            pages,
            dirs,
            es.len() as int,
        ).len(),
        audit::orphans(pages, audit::referenced(es), audit::places(es)) <= u64::MAX,
{
    let ids = audit::referenced(es);
    let named = audit::places(es);
    lemma_referenced(es);
    assert forall|k: int| 0 <= k < ids.len() implies (#[trigger] ids[k]).0 < pages.len()
        && apply::slots(pages[ids[k].0 as int]) is Ok by {
        assert(ids.contains(ids[k]));
        let i = choose|i: int| 0 <= i < es.len() && (#[trigger] es[i]).place.0 == ids[k];
        assert(entry_sound(pages, dirs, q, i));
        reveal(entry_sound);
        assert(es[i].place == place_at(pages, dirs, i));
    }
    lemma_pages_orphans(pages, ids, named);
    let a = unnamed_on(pages, ids, named);
    let b = orphan_places(pages, dirs, es.len() as int);
    assert forall|x: (PageId, u16)| a.contains(x) <==> b.contains(x) by {
        assert(ids.contains(x.0) <==> exists|i: int|
            0 <= i < es.len() && (#[trigger] place_at(pages, dirs, i)).0 == x.0) by {
            if ids.contains(x.0) {
                let i = choose|i: int| 0 <= i < es.len() && (#[trigger] es[i]).place.0 == x.0;
                assert(place_at(pages, dirs, i).0 == x.0);
            }
            if exists|i: int| 0 <= i < es.len() && (#[trigger] place_at(pages, dirs, i)).0 == x.0 {
                let i = choose|i: int|
                    0 <= i < es.len() && (#[trigger] place_at(pages, dirs, i)).0 == x.0;
                assert(es[i].place.0 == x.0);
            }
        }
        assert(named.contains(x) <==> exists|i: int|
            0 <= i < es.len() && #[trigger] place_at(pages, dirs, i) == x) by {
            if named.contains(x) {
                let i = choose|i: int| 0 <= i < named.len() && named[i] == x;
                assert(es[i].place == x);
                assert(place_at(pages, dirs, i) == x);
            }
            if exists|i: int| 0 <= i < es.len() && #[trigger] place_at(pages, dirs, i) == x {
                let i = choose|i: int| 0 <= i < es.len() && #[trigger] place_at(pages, dirs, i) == x;
                assert(es[i].place == x);
                assert(named[i] == x);
            }
        }
    }
    assert(a =~= b);
    assert(ids.len() * 0x1_0000 <= u32::MAX * 0x1_0000) by (nonlinear_arith)
        requires
            ids.len() <= u32::MAX,
    ;
}

// ---------------------------------------------------------------------
// The audit.
// ---------------------------------------------------------------------

/// The entry point of an index of `hwm` nodes is sound: a node whose level is
/// the index's, or none where there are no nodes.
pub open spec fn entry_point_sound(
    pages: Seq<Seq<u8>>,
    dirs: Seq<PageId>,
    q: MetaParams,
    hwm: int,
) -> bool {
    if hwm == 0 {
        q.entry_point == 0xffff_ffff && q.max_level == 0
    } else {
        q.entry_point < hwm && byte_at(pages, dirs, q, q.entry_point as int) & 0x3f == q.max_level
    }
}

/// An index with these parameters and this directory is sound: every entry, no
/// two at one place, the entry point, and every list of every node.
pub open spec fn index_sound(
    pages: Seq<Seq<u8>>,
    dirs: Seq<PageId>,
    q: MetaParams,
    hwm: int,
) -> bool {
    &&& places_differ(pages, dirs, hwm)
    &&& forall|i: int| 0 <= i < hwm ==> #[trigger] entry_sound(pages, dirs, q, i)
    &&& entry_point_sound(pages, dirs, q, hwm)
    &&& forall|i: int, l: int|
        0 <= i < hwm && 0 <= l <= byte_at(pages, dirs, q, i) & 0x3f ==> #[trigger] list_sound(
            pages,
            dirs,
            q,
            hwm,
            i,
            l,
        )
}

/// The audit accepts pages, whatever they hold, if and only if the meta page
/// can be read, the directory is one, and the index is sound. Its report
/// counts the nodes, by state and those above the entry point's level, and the
/// entries that are no node's.
pub proof fn lemma_audit_rules(
    pages: Seq<Seq<u8>>,
    meta_id: PageId,
    q: MetaParams,
    dirs: Seq<PageId>,
    hwm: u64,
)
    requires
        storage::sized(pages),
    ensures
        ({
            let r = audit::audited(pages, meta_id);
            let fit = {
                &&& meta_id.0 < pages.len()
                &&& meta::meta_of(pages[meta_id.0 as int]) == Ok::<MetaParams, HnswError>(q)
                &&& check_laws::is_directory(pages, q.dir_head, dirs, hwm)
            };
            let n = hwm as nat;
            &&& fit ==> (r is Ok <==> index_sound(pages, dirs, q, hwm as int))
            &&& fit && r is Ok ==> {
                let report = r->Ok_0;
                &&& report.node_count == hwm
                &&& report.entry_point == q.entry_point
                &&& report.max_level == q.max_level
                &&& report.live_count == count(n, |i: int| byte_at(pages, dirs, q, i) & 0x40 != 0)
                &&& report.initializing_count == hwm - report.live_count
                &&& report.tombstoned_count == count(
                    n,
                    |i: int| byte_at(pages, dirs, q, i) & 0x80 != 0,
                )
                &&& report.hidden_high_level_count == count(
                    n,
                    |i: int| byte_at(pages, dirs, q, i) & 0x3f > q.max_level,
                )
                &&& orphan_places(pages, dirs, hwm as int).finite()
                &&& report.orphan_entry_count == orphan_places(pages, dirs, hwm as int).len()
            }
        }),
        audit::audited(pages, meta_id) is Ok ==> {
            &&& meta_id.0 < pages.len()
            &&& meta::meta_of(pages[meta_id.0 as int]) is Ok
        },
{
    let r = audit::audited(pages, meta_id);
    if meta_id.0 < pages.len() && meta::meta_of(pages[meta_id.0 as int]) == Ok::<
        MetaParams,
        HnswError,
    >(q) && check_laws::is_directory(pages, q.dir_head, dirs, hwm) {
        let context = "audit: pin directory page";
        meta::lemma_read_meta_is_valid(pages[meta_id.0 as int]);
        check_laws::lemma_directory_accepted(pages, context, q.dir_head, dirs, hwm);
        dir::lemma_chain_is_the_legal_chain(pages, context, q.dir_head, dirs);
        lemma_graph_rules(pages, dirs, q, hwm);
    }
}

/// The audit of a graph.
proof fn lemma_graph_rules(pages: Seq<Seq<u8>>, dirs: Seq<PageId>, q: MetaParams, hwm: u64)
    requires
        storage::sized(pages),
        dir::legal_chain(pages, dirs),
        dir::tail_hwm(pages[dirs.last().0 as int]) == hwm,
        hwm <= u32::MAX,
        2 <= q.m,
        1 <= q.dim,
    ensures
        ({
            let r: Result<AuditReport, HnswError> = audit::graph_audited(pages, dirs, q, hwm);
            let n = hwm as nat;
            &&& r is Ok <==> index_sound(pages, dirs, q, hwm as int)
            &&& r matches Ok(report) ==> {
                &&& report.node_count == hwm
                &&& report.entry_point == q.entry_point
                &&& report.max_level == q.max_level
                &&& report.live_count == count(n, |i: int| byte_at(pages, dirs, q, i) & 0x40 != 0)
                &&& report.initializing_count == hwm - report.live_count
                &&& report.tombstoned_count == count(
                    n,
                    |i: int| byte_at(pages, dirs, q, i) & 0x80 != 0,
                )
                &&& report.hidden_high_level_count == count(
                    n,
                    |i: int| byte_at(pages, dirs, q, i) & 0x3f > q.max_level,
                )
                &&& orphan_places(pages, dirs, hwm as int).finite()
                &&& report.orphan_entry_count == orphan_places(pages, dirs, hwm as int).len()
            }
        }),
{
    let n = hwm as nat;
    lemma_entries_checked(pages, dirs, q, hwm, n);
    reveal(listed);
    if let Ok(es) = audit::entries(pages, dirs, q, n) {
        assert(listed_as_kept(pages, dirs, q, es, n));
        let tops = audit::tops(es);
        assert forall|j: int| 0 <= j < tops.len() implies #[trigger] tops[j] == byte_at(
            pages,
            dirs,
            q,
            j,
        ) & 0x3f by {
            assert(es[j].top == byte_at(pages, dirs, q, j) & 0x3f);
        }
        lemma_edges_checked(pages, dirs, q, tops, n);
        assert forall|i: int| 0 <= i < hwm implies (#[trigger] edges_checked(
            pages,
            dirs,
            q,
            tops,
            i,
        ) <==> lists_sound(pages, dirs, q, hwm as int, i)) by {
            assert(entry_sound(pages, dirs, q, i));
            lemma_node_edges_checked(pages, dirs, q, tops, hwm, i);
        }
        lemma_counted(pages, dirs, q, es, n);
        assert(es.take(n as int) =~= es);
        lemma_orphans_counted(pages, dirs, q, es);
        if 0 < hwm && q.entry_point < hwm {
            assert(tops[q.entry_point as int] == byte_at(pages, dirs, q, q.entry_point as int)
                & 0x3f);
        }
        if audit::edges(pages, dirs, audit::geometry(q), tops, n) is Ok {
            assert forall|i: int, l: int|
                0 <= i < hwm && 0 <= l <= byte_at(pages, dirs, q, i) & 0x3f implies #[trigger]
                list_sound(pages, dirs, q, hwm as int, i, l) by {
                assert(edges_checked(pages, dirs, q, tops, i));
                reveal(lists_sound);
            }
        }
        if index_sound(pages, dirs, q, hwm as int) {
            assert forall|i: int| 0 <= i < n implies #[trigger] edges_checked(
                pages,
                dirs,
                q,
                tops,
                i,
            ) by {
                reveal(lists_sound);
            }
        }
    }
}

} // verus!
