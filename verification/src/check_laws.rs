//! What is admitted and what is refused, in the numbers that decide it.

use vstd::prelude::*;

use vstd::arithmetic::power;

use crate::bytes;
use crate::dir;
use crate::error::HnswError;
use crate::graph;
use crate::graph::Metric;
use crate::graph::NeighborSelection;
use crate::meta;
use crate::meta::ExpectedParams;
use crate::meta::MetaParams;
use crate::model;
use crate::model::IndexView;
use crate::node;
use crate::page;
use crate::page::PAGE_TYPE_DIR;
use crate::page::PAGE_TYPE_META;
use crate::params;
use crate::rng;
use crate::storage;
use crate::storage::PageId;
use crate::validate;
use crate::validate::MetaView;

verus! {

// ---------------------------------------------------------------------
// Parameters and vectors.
// ---------------------------------------------------------------------

/// Construction parameters are accepted if and only if `M` is at least 2 and
/// the other three are at least `M`.
pub proof fn lemma_params_accepted(
    m: u16,
    m_max0: u16,
    ef_construction: u32,
    ef_search_default: u32,
)
    ensures
        params::param_fault(m, m_max0, ef_construction, ef_search_default) is None <==> {
            &&& 2 <= m <= m_max0
            &&& m <= ef_construction
            &&& m <= ef_search_default
        },
{
}

/// The magnitude of the `f32` with these bits: its bits without the sign.
pub open spec fn magnitude(x: u32) -> int {
    x as int % 0x8000_0000
}

/// A vector that every metric but the cosine can serve: it has a component,
/// and every component is below infinity in magnitude.
pub open spec fn usable_vector(v: Seq<u32>) -> bool {
    &&& v.len() > 0
    &&& forall|i: int| 0 <= i < v.len() ==> magnitude(#[trigger] v[i]) < 0x7f80_0000
}

/// A vector with a component other than zero.
pub open spec fn nonzero_vector(v: Seq<u32>) -> bool {
    exists|i: int| 0 <= i < v.len() && magnitude(#[trigger] v[i]) != 0
}

/// The bits of a finite number are those below infinity, of either sign; the
/// bits of a zero are those without magnitude.
pub proof fn lemma_bits(x: u32)
    ensures
        graph::finite_bits(x) <==> magnitude(x) < 0x7f80_0000,
        graph::zero_bits(x) <==> magnitude(x) == 0,
{
}

/// A vector is accepted if and only if it has a component, all its components
/// are finite and, under the cosine, one of them is not zero. A vector that
/// only the cosine refuses is refused as a zero vector, any other as an
/// invalid argument.
pub proof fn lemma_vector_accepted(metric: Metric, v: Seq<u32>)
    ensures
        graph::vector_check(metric, v) is Ok <==> usable_vector(v) && (metric == Metric::Cosine
            ==> nonzero_vector(v)),
        graph::vector_check(metric, v) matches Err(e) ==> {
            &&& usable_vector(v) <==> e is ZeroVector
            &&& !usable_vector(v) <==> e is InvalidArgument
        },
{
    assert forall|i: int| 0 <= i < v.len() implies (graph::finite_bits(#[trigger] v[i])
        <==> magnitude(v[i]) < 0x7f80_0000) && (graph::zero_bits(v[i]) <==> magnitude(v[i])
        == 0) by {
        lemma_bits(v[i]);
    }
}

/// Two vectors have a distance if and only if they have the same number of
/// components, at least one, and all of them are finite.
pub proof fn lemma_pair_accepted(a: Seq<u32>, b: Seq<u32>)
    ensures
        graph::pair_check(a, b) is Ok <==> a.len() == b.len() && usable_vector(a)
            && usable_vector(b),
        graph::pair_check(a, b) matches Err(e) ==> e is InvalidArgument,
{
    assert forall|i: int| 0 <= i < a.len() implies (graph::finite_bits(#[trigger] a[i])
        <==> magnitude(a[i]) < 0x7f80_0000) by {
        lemma_bits(a[i]);
    }
    assert forall|i: int| 0 <= i < b.len() implies (graph::finite_bits(#[trigger] b[i])
        <==> magnitude(b[i]) < 0x7f80_0000) by {
        lemma_bits(b[i]);
    }
}

/// Bytes of a node entry: four for each component, a state byte, and for each
/// level a count of two bytes and four bytes for each neighbor that it has
/// room for.
pub open spec fn entry_bytes(dim: u16, m: u16, m_max0: u16, level: nat) -> int {
    4 * dim + 1 + (2 + 4 * m_max0) + level * (2 + 4 * m)
}

/// Every node fits a page of 8192 bytes, with its header of 32 bytes and a
/// line pointer of 4, on whatever level it is: a draw of 53 bits gives no
/// level above `log_m(2^53)`.
pub open spec fn fits_a_page(dim: u16, m: u16, m_max0: u16) -> bool {
    forall|level: nat|
        power::pow(m as int, level) <= 0x20_0000_0000_0000 ==> #[trigger] entry_bytes(
            dim,
            m,
            m_max0,
            level,
        ) <= 8192 - 32 - 4
}

/// The highest level is the largest that a draw of 53 bits can give.
pub proof fn lemma_top_level(m: nat, level: nat)
    requires
        2 <= m,
    ensures
        power::pow(m as int, level) <= 0x20_0000_0000_0000 <==> level <= rng::top_level(m),
{
    rng::lemma_level_is_the_logarithm(1, m);
    let top = rng::top_level(m);
    if level <= top {
        power::lemma_pow_increases(m, level, top);
    } else {
        power::lemma_pow_increases(m, top + 1, level);
    }
}

/// A geometry is accepted if and only if vectors have a component and every
/// node fits a page; anything else is an invalid argument.
pub proof fn lemma_geometry_accepted(dim: u16, m: u16, m_max0: u16)
    requires
        2 <= m,
    ensures
        node::geometry_check(dim, m, m_max0) is Ok <==> dim > 0 && fits_a_page(dim, m, m_max0),
        node::geometry_check(dim, m, m_max0) matches Err(e) ==> e is InvalidArgument,
{
    let top = rng::top_level(m as nat);
    rng::lemma_top_level_bound(m as nat);
    lemma_top_level(m as nat, top);
    let worst = entry_bytes(dim, m, m_max0, top);
    if worst <= 8156 {
        assert forall|level: nat|
            power::pow(m as int, level) <= 0x20_0000_0000_0000 implies #[trigger] entry_bytes(
            dim,
            m,
            m_max0,
            level,
        ) <= 8192 - 32 - 4 by {
            lemma_top_level(m as nat, level);
            assert(level * (2 + 4 * m) <= top * (2 + 4 * m)) by (nonlinear_arith)
                requires
                    level <= top,
            ;
        }
    }
}

// ---------------------------------------------------------------------
// The meta page and what a caller expects of it.
// ---------------------------------------------------------------------

/// Parameters that an index can have: in their domains, with nodes that fit a
/// page, a directory, and an entry point on a level that a draw can give, or
/// none in a graph without levels.
pub open spec fn possible(q: MetaParams) -> bool {
    &&& q.dim > 0
    &&& 2 <= q.m <= q.m_max0
    &&& q.m <= q.ef_construction
    &&& q.m <= q.ef_search_default
    &&& fits_a_page(q.dim, q.m, q.m_max0)
    &&& q.dir_head.0 != 0xffff_ffff_ffff_ffff
    &&& power::pow(q.m as int, q.max_level as nat) <= 0x20_0000_0000_0000
    &&& q.entry_point == 0xffff_ffff ==> q.max_level == 0
}

/// A meta page may hold exactly the parameters that an index can have.
pub proof fn lemma_meta_accepted(q: MetaParams)
    ensures
        meta::valid(q) <==> possible(q),
{
    if q.m >= 2 {
        lemma_geometry_accepted(q.dim, q.m, q.m_max0);
        rng::lemma_top_level_bound(q.m as nat);
        lemma_top_level(q.m as nat, q.max_level as nat);
    }
}

/// A meta page is read if and only if it has the meta type and the version 1,
/// codes that stand for a metric and a selection, zero where nothing is
/// stored, the snapshot version 1, and parameters that an index can have.
pub proof fn lemma_meta_page_accepted(p: Seq<u8>)
    ensures
        meta::meta_of(p) is Ok <==> {
            &&& storage::pd_flags(p) == PAGE_TYPE_META
            &&& p[37] == 1
            &&& Metric::decoded(p[38]) is Ok
            &&& NeighborSelection::decoded(p[39]) is Ok
            &&& bytes::le16(p, 54) == 0
            &&& bytes::le16(p, 72) == 1
            &&& possible(
                meta::fields(
                    p,
                    Metric::decoded(p[38])->Ok_0,
                    NeighborSelection::decoded(p[39])->Ok_0,
                ),
            )
        },
        Metric::decoded(p[38]) is Ok <==> p[38] <= 2,
        NeighborSelection::decoded(p[39]) is Ok <==> p[39] <= 1,
{
    if Metric::decoded(p[38]) is Ok && NeighborSelection::decoded(p[39]) is Ok {
        lemma_meta_accepted(
            meta::fields(
                p,
                Metric::decoded(p[38])->Ok_0,
                NeighborSelection::decoded(p[39])->Ok_0,
            ),
        );
    }
}

/// Stored parameters meet a caller's expectations if and only if the
/// dimension, the three construction parameters, the metric and the selection
/// are each the expected one; a difference is an invalid argument. The default
/// beam width may differ: there is a warning exactly where it does.
pub proof fn lemma_expectations_met(q: MetaParams, e: ExpectedParams)
    ensures
        meta::expectation_fault(q, e) is None <==> {
            &&& q.dim == e.dim
            &&& q.m == e.m
            &&& q.m_max0 == e.m_max0
            &&& q.ef_construction == e.ef_construction
            &&& q.metric == e.metric
            &&& q.selection == e.selection
        },
        meta::expectation_fault(q, e) matches Some(f) ==> f is InvalidArgument,
        meta::warning_texts(q, e).len() == if q.ef_search_default == e.ef_search_default {
            0nat
        } else {
            1
        },
{
}

// ---------------------------------------------------------------------
// The directory.
// ---------------------------------------------------------------------

/// The pages of a directory from `head` on: different directory pages that
/// count up from 0, each but the last full with 813 entries and naming the
/// next, the last with no successor; and no more entries than node ids.
pub open spec fn is_directory(
    pages: Seq<Seq<u8>>,
    head: PageId,
    ids: Seq<PageId>,
    hwm: u64,
) -> bool {
    &&& 1 <= ids.len() <= 0x1_0000_0000
    &&& ids[0] == head
    &&& forall|i: int, j: int| 0 <= i < j < ids.len() ==> ids[i] != ids[j]
    &&& forall|i: int|
        0 <= i < ids.len() ==> (#[trigger] ids[i]).0 < pages.len() && {
            let p = pages[ids[i].0 as int];
            &&& storage::pd_flags(p) == PAGE_TYPE_DIR
            &&& page::spec_dir_ordinal(p) == i
            &&& if i + 1 < ids.len() {
                &&& page::spec_dir_count(p) == 813
                &&& page::spec_dir_next(p) == ids[i + 1]
                &&& ids[i + 1].0 != 0xffff_ffff_ffff_ffff
            } else {
                &&& page::spec_dir_count(p) <= 813
                &&& page::spec_dir_next(p).0 == 0xffff_ffff_ffff_ffff
                &&& hwm == 813 * i + page::spec_dir_count(p)
            }
        }
    &&& hwm <= 0xffff_ffff
}

/// A walk from `head` succeeds if and only if there is a directory from there
/// on, and then gives its pages and its number of entries.
pub proof fn lemma_directory_accepted(
    pages: Seq<Seq<u8>>,
    context: &'static str,
    head: PageId,
    ids: Seq<PageId>,
    hwm: u64,
)
    requires
        head.0 != 0xffff_ffff_ffff_ffff,
    ensures
        dir::chain(pages, context, head) == Ok::<(Seq<PageId>, u64), HnswError>((ids, hwm))
            <==> is_directory(pages, head, ids, hwm),
{
    dir::lemma_chain_is_the_legal_chain(pages, context, head, ids);
    if dir::chain(pages, context, head) == Ok::<(Seq<PageId>, u64), HnswError>((ids, hwm)) {
        assert forall|i: int| 0 <= i < ids.len() implies (#[trigger] ids[i]).0 < pages.len()
            && {
            let p = pages[ids[i].0 as int];
            &&& storage::pd_flags(p) == PAGE_TYPE_DIR
            &&& page::spec_dir_ordinal(p) == i
            &&& if i + 1 < ids.len() {
                &&& page::spec_dir_count(p) == 813
                &&& page::spec_dir_next(p) == ids[i + 1]
                &&& ids[i + 1].0 != 0xffff_ffff_ffff_ffff
            } else {
                &&& page::spec_dir_count(p) <= 813
                &&& page::spec_dir_next(p).0 == 0xffff_ffff_ffff_ffff
                &&& hwm == 813 * i + page::spec_dir_count(p)
            }
        } by {
            assert(dir::chain_link(pages[ids[i].0 as int], ids[i], i as nat) is Ok);
        }
        let n = ids.len() - 1;
        assert(dir::chain_link(pages[ids[n].0 as int], ids[n], n as nat) is Ok);
    }
    if is_directory(pages, head, ids, hwm) {
        let n = ids.len() - 1;
        assert(ids[n].0 < pages.len());
        assert forall|i: int| 0 <= i < ids.len() implies (#[trigger] ids[i]).0 < pages.len()
            && dir::chain_link(pages[ids[i].0 as int], ids[i], i as nat) == Ok::<
            Option<PageId>,
            HnswError,
        >(
            if i + 1 < ids.len() {
                Some(ids[i + 1])
            } else {
                None
            },
        ) by {
            if i + 1 < ids.len() {
                assert(ids[i] != ids[i + 1]);
            }
        }
        assert(ids.no_duplicates());
        assert(dir::legal_chain(pages, ids));
    }
}

/// An entry of a directory page is given if and only if the page counts it,
/// and counts no more than 813; a failure is corruption.
pub proof fn lemma_dir_entry_accepted(p: Seq<u8>, index: u32)
    ensures
        dir::entry(p, index) is Ok <==> index < page::spec_dir_count(p) <= 813,
        dir::entry(p, index) matches Ok(place) ==> place == dir::target(p, index as int),
        dir::entry(p, index) matches Err(e) ==> e is Corrupted,
{
}

// ---------------------------------------------------------------------
// Records.
// ---------------------------------------------------------------------

/// A record creates an entry if and only if it has the index's dimension, a
/// vector of that many finite components, not all zero under the cosine, and
/// a level that a draw can give.
pub proof fn lemma_node_init_accepted(meta: MetaView, dim: u16, level: u8, vector: Seq<u32>)
    requires
        2 <= meta.m,
        meta.dim > 0,
    ensures
        validate::node_init_check(meta, dim, level, vector) is Ok <==> {
            &&& dim == meta.dim
            &&& vector.len() == dim
            &&& power::pow(meta.m as int, level as nat) <= 0x20_0000_0000_0000
            &&& usable_vector(vector)
            &&& meta.metric == Metric::Cosine ==> nonzero_vector(vector)
        },
{
    lemma_top_level(meta.m as nat, level as nat);
    rng::lemma_top_level_bound(meta.m as nat);
    lemma_vector_accepted(Metric::Cosine, vector);
    lemma_vector_accepted(Metric::L2, vector);
}

/// A record replaces a list if and only if the list is as long as it says,
/// within `M_max0` ids on level 0 and `M` above, on a level that the entry
/// has, strictly ascending and without its owner.
pub proof fn lemma_set_neighbors_accepted(
    meta: MetaView,
    owner: u32,
    level: u8,
    count: u16,
    content: Seq<u32>,
    top: u8,
)
    ensures
        validate::set_neighbors_check(meta, owner, level, count, content, top) is Ok <==> {
            &&& content.len() == count
            &&& content.len() <= if level == 0 {
                meta.m_max0
            } else {
                meta.m
            }
            &&& level <= top
            &&& forall|i: int, j: int| 0 <= i < j < content.len() ==> content[i] < content[j]
            &&& forall|i: int| 0 <= i < content.len() ==> content[i] != owner
        },
        validate::set_neighbors_check(meta, owner, level, count, content, top) matches Err(e)
            ==> e is InvalidArgument,
{
    assert(content.contains(owner) <==> exists|i: int|
        0 <= i < content.len() && content[i] == owner);
}

/// A record that changes a state byte must have the index's dimension.
pub proof fn lemma_state_dim_accepted(meta: MetaView, dim: u16, what: &'static str)
    ensures
        validate::state_dim_check(meta, dim, what) is Ok <==> dim == meta.dim,
        validate::state_dim_check(meta, dim, what) matches Err(e) ==> e is InvalidArgument,
{
}

// ---------------------------------------------------------------------
// Insertions and searches.
// ---------------------------------------------------------------------

/// A vector is admitted to an index if and only if it has the index's
/// dimension, the metric can serve it, and there is a node id left for it:
/// the last one stands for no node.
pub proof fn lemma_insertion_admitted(ix: IndexView, vector: Seq<u32>)
    requires
        ix.params.dim > 0,
        ix.hwm <= 0xffff_ffff,
    ensures
        model::insert_fault(ix, vector) is None <==> {
            &&& vector.len() == ix.params.dim
            &&& usable_vector(vector)
            &&& ix.params.metric == Metric::Cosine ==> nonzero_vector(vector)
            &&& ix.hwm < 0xffff_ffff
        },
{
    lemma_vector_accepted(ix.params.metric, vector);
}

/// A query is refused if and only if it does not have the index's dimension,
/// the metric cannot serve it, or the beam is narrower than the answer. Of one
/// that is not refused the answer is empty without a search if and only if
/// there is no entry point or nothing is asked for; else there is a search,
/// with a beam of the width that was given, or of the index's default.
pub proof fn lemma_search_planned(ix: IndexView, query: Seq<u32>, k: usize, ef: Option<usize>)
    requires
        ix.params.dim > 0,
    ensures
        ({
            let width = match ef {
                Some(n) => n as int,
                None => ix.params.ef_search_default as int,
            };
            let plan = model::search_plan(ix, query, k, ef);
            &&& plan is Ok <==> {
                &&& query.len() == ix.params.dim
                &&& usable_vector(query)
                &&& ix.params.metric == Metric::Cosine ==> nonzero_vector(query)
                &&& k <= width
            }
            &&& plan matches Ok(p) ==> {
                &&& p is None <==> ix.params.entry_point == 0xffff_ffff || k == 0
                &&& p matches Some(n) ==> n == width
            }
        }),
{
    lemma_vector_accepted(ix.params.metric, query);
}

} // verus!
