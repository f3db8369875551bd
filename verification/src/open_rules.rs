//! When an index is created and opened, and what the handle is then.

use vstd::prelude::*;

use vstd::arithmetic::power;

use crate::check_laws;
use crate::dir;
use crate::error::HnswError;
use crate::graph::Metric;
use crate::graph::NeighborSelection;
use crate::meta;
use crate::meta::ExpectedParams;
use crate::meta::MetaParams;
use crate::model;
use crate::model::Disk;
use crate::open_laws;
use crate::page;
use crate::params::HnswParams;
use crate::rng;
use crate::soundness;
use crate::storage;
use crate::storage::PageId;

verus! {

/// An index is created if and only if vectors have a component, every node
/// fits a page, and there is room for two pages and two records. The handle
/// then has the parameters that were asked for, no nodes and no entry point,
/// and draws its levels from the seed; the pages are the directory and the
/// meta page, behind those that there were.
pub proof fn lemma_created_as_asked(
    d: Disk,
    p: HnswParams,
    dim: u16,
    metric: Metric,
    selection: NeighborSelection,
    rng_seed: u64,
)
    requires
        p.valid(),
    ensures
        ({
            let (d1, r) = model::created(d, p, dim, metric, selection, rng_seed);
            &&& r is Ok <==> {
                &&& dim > 0
                &&& check_laws::fits_a_page(dim, p.spec_m(), p.spec_m_max0())
                &&& d.pages.len() + 2 <= 0xffff_ffff_ffff_ffff
                &&& d.log.len() + 2 <= storage::LOG_CAPACITY
            }
            &&& r matches Ok(ix) ==> {
                &&& ix.params.dim == dim
                &&& ix.params.m == p.spec_m()
                &&& ix.params.m_max0 == p.spec_m_max0()
                &&& ix.params.ef_construction == p.spec_ef_construction()
                &&& ix.params.ef_search_default == p.spec_ef_search_default()
                &&& ix.params.metric == metric
                &&& ix.params.selection == selection
                &&& ix.params.rng_seed == rng_seed
                &&& ix.params.entry_point == 0xffff_ffff
                &&& ix.params.max_level == 0
                &&& ix.hwm == 0
                &&& ix.rng == rng::seeded(rng_seed)
                &&& ix.dir_head.0 == d.pages.len()
                &&& ix.dir_pages == seq![ix.dir_head]
                &&& ix.meta_page_id.0 == d.pages.len() + 1
                &&& d1.pages.len() == d.pages.len() + 2
                &&& d1.pages.take(d.pages.len() as int) == d.pages
                &&& d1.log.len() == d.log.len() + 2
                &&& d1.log.take(d.log.len() as int) == d.log
            }
        }),
{
    check_laws::lemma_params_accepted(
        p.spec_m(),
        p.spec_m_max0(),
        p.spec_ef_construction(),
        p.spec_ef_search_default(),
    );
    check_laws::lemma_geometry_accepted(dim, p.spec_m(), p.spec_m_max0());
    page::lemma_blank_dir_page(0);
    page::lemma_blank_page(page::PAGE_TYPE_META);
    let (d1, r) = model::created(d, p, dim, metric, selection, rng_seed);
    if r is Ok {
        assert(d1.pages.take(d.pages.len() as int) =~= d.pages);
        assert(d1.log.take(d.log.len() as int) =~= d.log);
    }
}

/// The parameters of an index are the expected ones, but for the default beam
/// width.
pub open spec fn as_expected(q: MetaParams, e: ExpectedParams) -> bool {
    &&& q.dim == e.dim
    &&& q.m == e.m
    &&& q.m_max0 == e.m_max0
    &&& q.ef_construction == e.ef_construction
    &&& q.metric == e.metric
    &&& q.selection == e.selection
}

/// An index is opened if and only if its meta page can be read, the parameters
/// there are the expected ones, its directory is one, and its entry point is
/// one of its nodes; or there is none, and there are no nodes either, or the
/// first node can take its place: it can be read, is on a level that a draw can
/// give, and the log has room for a record. The handle then has the
/// parameters of the meta page, with that entry point; the nodes and the pages
/// of the directory; the page of the last node; and a level draw that has been
/// made once for each node. Nothing changes unless the entry point does.
pub proof fn lemma_opening_accepted(
    d: Disk,
    meta_id: PageId,
    e: ExpectedParams,
    q: MetaParams,
    dirs: Seq<PageId>,
    hwm: u64,
)
    requires
        storage::sized(d.pages),
        d.pages.len() <= 0xffff_ffff_ffff_ffff,
        meta_id.0 < d.pages.len(),
        meta::meta_of(d.pages[meta_id.0 as int]) == Ok::<MetaParams, HnswError>(q),
        check_laws::is_directory(d.pages, q.dir_head, dirs, hwm),
    ensures
        ({
            let (d1, r) = model::opened(d, meta_id, e);
            let first = open_laws::first_level(d.pages, q);
            let missing = hwm > 0 && q.entry_point == 0xffff_ffff;
            &&& r is Ok <==> {
                &&& as_expected(q, e)
                &&& q.entry_point == 0xffff_ffff || q.entry_point < hwm
                &&& missing ==> {
                    &&& first is Some
                    &&& power::pow(q.m as int, first->0 as nat) <= 0x20_0000_0000_0000
                    &&& d.log.len() < storage::LOG_CAPACITY
                }
            }
            &&& r is Err ==> d1 == d
            &&& r matches Ok((ix, warnings)) ==> {
                &&& ix.params == (MetaParams {
                    entry_point: if missing {
                        0
                    } else {
                        q.entry_point
                    },
                    max_level: if missing {
                        first->0
                    } else {
                        q.max_level
                    },
                    ..q
                })
                &&& ix.meta_page_id == meta_id
                &&& ix.dir_head == q.dir_head
                &&& ix.hwm == hwm
                &&& ix.dir_pages == dirs
                &&& ix.rng == rng::after_levels(rng::seeded(q.rng_seed), q.m, hwm as nat)
                &&& ix.current_node_page == if hwm == 0 {
                    None
                } else {
                    Some(soundness::place(d.pages, dirs, hwm - 1).0)
                }
                &&& !missing ==> d1 == d
                &&& warnings.len() == if q.ef_search_default == e.ef_search_default {
                    0nat
                } else {
                    1
                }
            }
        }),
{
    let context = "open: pin directory page";
    let p = d.pages[meta_id.0 as int];
    let (d1, r) = model::opened(d, meta_id, e);
    meta::lemma_read_meta_is_valid(p);
    check_laws::lemma_directory_accepted(d.pages, context, q.dir_head, dirs, hwm);
    dir::lemma_chain_is_the_legal_chain(d.pages, context, q.dir_head, dirs);
    check_laws::lemma_expectations_met(q, e);
    rng::lemma_top_level_bound(q.m as nat);
    if hwm > 0 {
        let last = (hwm - 1) as u64;
        soundness::lemma_dir_position(d.pages, dirs, hwm, last as int);
        soundness::lemma_chain_pages(d.pages, dirs, last as int / 813);
        if q.entry_point == 0xffff_ffff {
            if let Some(t) = open_laws::first_level(d.pages, q) {
                check_laws::lemma_top_level(q.m as nat, t as nat);
                if as_expected(q, e) && t <= rng::top_level(q.m as nat) {
                    open_laws::lemma_opening_repairs_the_entry_point(
                        d,
                        meta_id,
                        e,
                        q,
                        dirs,
                        hwm,
                        t,
                    );
                    lemma_last_page(d, meta_id, q, dirs, hwm, t);
                }
            }
        }
    }
}

/// The page of the last node after a repair is the one before.
proof fn lemma_last_page(
    d: Disk,
    meta_id: PageId,
    q: MetaParams,
    dirs: Seq<PageId>,
    hwm: u64,
    t: u8,
)
    requires
        storage::sized(d.pages),
        meta_id.0 < d.pages.len(),
        meta::meta_of(d.pages[meta_id.0 as int]) == Ok::<MetaParams, HnswError>(q),
        q.dir_head.0 != storage::INVALID_PAGE,
        dir::chain(d.pages, "open: pin directory page", q.dir_head) == Ok::<
            (Seq<PageId>, u64),
            HnswError,
        >((dirs, hwm)),
        dir::legal_chain(d.pages, dirs),
        dir::tail_hwm(d.pages[dirs.last().0 as int]) == hwm,
        hwm > 0,
    ensures
        ({
            let r = storage::with_lsn(
                meta::meta_applied(d.pages[meta_id.0 as int], 0, t),
                storage::next_lsn(d.log),
            );
            let pages = d.pages.update(meta_id.0 as int, r);
            model::last_node_page(pages, dirs, hwm) == Ok::<Option<PageId>, HnswError>(
                Some(soundness::place(d.pages, dirs, hwm - 1).0),
            )
        }),
{
    let r = storage::with_lsn(
        meta::meta_applied(d.pages[meta_id.0 as int], 0, t),
        storage::next_lsn(d.log),
    );
    let last = (hwm - 1) as u64;
    soundness::lemma_dir_position(d.pages, dirs, hwm, last as int);
    soundness::lemma_chain_pages(d.pages, dirs, last as int / 813);
    open_laws::lemma_chain_without_meta(
        d.pages,
        "open: pin directory page",
        q.dir_head,
        meta_id,
        r,
    );
    assert(dirs[last as int / 813] != meta_id);
}

/// An index whose meta page cannot be read, or whose directory is none, is not
/// opened, and nothing changes.
pub proof fn lemma_opening_refused(d: Disk, meta_id: PageId, e: ExpectedParams)
    ensures
        ({
            let (d1, r) = model::opened(d, meta_id, e);
            let readable = meta_id.0 < d.pages.len() && meta::meta_of(
                d.pages[meta_id.0 as int],
            ) is Ok;
            let q = meta::meta_of(d.pages[meta_id.0 as int])->Ok_0;
            &&& !readable ==> r is Err && d1 == d
            &&& readable && !(exists|dirs: Seq<PageId>, hwm: u64| #[trigger]
                check_laws::is_directory(d.pages, q.dir_head, dirs, hwm)) ==> r is Err && d1 == d
        }),
{
    if meta_id.0 < d.pages.len() {
        if let Ok(q) = meta::meta_of(d.pages[meta_id.0 as int]) {
            meta::lemma_read_meta_is_valid(d.pages[meta_id.0 as int]);
            let context = "open: pin directory page";
            if let Ok((dirs, hwm)) = dir::chain(d.pages, context, q.dir_head) {
                check_laws::lemma_directory_accepted(d.pages, context, q.dir_head, dirs, hwm);
            }
        }
    }
}

} // verus!
