//! The meta page: what makes an index describe itself.
//!
//! Every parameter that opening or replaying an index must agree on stands
//! here, fixed at creation:
//!
//! ```text
//! 32 entry_point:u32 | 36 max_level:u8 | 37 meta_format_version:u8 = 1 |
//! 38 metric:u8 | 39 selection:u8 | 40 dim:u16 | 42 m:u16 | 44 m_max0:u16 |
//! 46 ef_construction:u32 | 50 ef_search_default:u32 | 54 reserved:u16 = 0 |
//! 56 rng_seed:u64 | 64 dir_head:u64 | 72 snapshot_format_version:u16 = 1
//! ```

use vstd::prelude::*;

use crate::bytes;
use crate::error::HnswError;
use crate::fault::MetaFault;
use crate::fault::Reason;
use crate::graph::Metric;
use crate::graph::NeighborSelection;
use crate::node;
use crate::page;
use crate::params;
use crate::rng;
use crate::storage;
use crate::storage::Page;
use crate::storage::PageId;
use crate::storage::PAGE_SIZE;
use crate::text;
use crate::text::Piece;

verus! {

/// Offset of the entry point.
pub const META_OFF_ENTRY_POINT: usize = 32;

/// Offset of the entry point's top level.
pub const META_OFF_MAX_LEVEL: usize = 36;

/// Offset of the meta format version.
pub const META_OFF_FORMAT_VERSION: usize = 37;

/// Offset of the metric's code.
pub const META_OFF_METRIC: usize = 38;

/// Offset of the neighbor-selection code.
pub const META_OFF_SELECTION: usize = 39;

/// Offset of the dimension.
pub const META_OFF_DIM: usize = 40;

/// Offset of `m`.
pub const META_OFF_M: usize = 42;

/// Offset of `m_max0`.
pub const META_OFF_M_MAX0: usize = 44;

/// Offset of `ef_construction`.
pub const META_OFF_EF_CONSTRUCTION: usize = 46;

/// Offset of `ef_search_default`.
pub const META_OFF_EF_SEARCH_DEFAULT: usize = 50;

/// Offset of the reserved field.
pub const META_OFF_RESERVED: usize = 54;

/// Offset of the generator's seed.
pub const META_OFF_RNG_SEED: usize = 56;

/// Offset of the directory chain's head.
pub const META_OFF_DIR_HEAD: usize = 64;

/// Offset of the snapshot format version.
pub const META_OFF_SNAPSHOT_FORMAT_VERSION: usize = 72;

/// The meta format version.
pub const META_FORMAT_VERSION: u8 = 1;

/// The snapshot format version that goes with it.
pub const SNAPSHOT_VERSION: u16 = 1;

/// The parameters on a meta page.
#[derive(Debug, Clone, Copy, PartialEq, Eq, Structural)]
pub struct MetaParams {
    /// Entry-point node id; that of no node for an empty graph.
    pub entry_point: u32,
    /// Top level of the entry point; 0 for an empty graph.
    pub max_level: u8,
    /// Distance metric.
    pub metric: Metric,
    /// Neighbor-selection mode.
    pub selection: NeighborSelection,
    /// Vector dimension.
    pub dim: u16,
    /// Construction parameter M.
    pub m: u16,
    /// Construction parameter M_max0.
    pub m_max0: u16,
    /// Construction parameter ef_construction.
    pub ef_construction: u32,
    /// Query-time default beam width, a performance knob.
    pub ef_search_default: u32,
    /// Seed of the level draw.
    pub rng_seed: u64,
    /// Head of the directory chain.
    pub dir_head: PageId,
}

/// What is wrong with the parameters fixed at creation, if anything.
pub open spec fn creation_fault(p: MetaParams) -> Option<HnswError> {
    if p.dim == 0 {
        Some(HnswError::Corrupted(Reason::Meta(MetaFault::DimZero)))
    } else if p.m < 2 {
        Some(HnswError::Corrupted(Reason::Meta(MetaFault::MBelowTwo { m: p.m })))
    } else if p.m_max0 < p.m {
        Some(
            HnswError::Corrupted(
                Reason::Meta(MetaFault::MMax0BelowM { m_max0: p.m_max0, m: p.m }),
            ),
        )
    } else if p.ef_construction < p.m {
        Some(
            HnswError::Corrupted(
                Reason::Meta(MetaFault::EfConstructionBelowM { ef: p.ef_construction, m: p.m }),
            ),
        )
    } else if p.ef_search_default < p.m {
        Some(
            HnswError::Corrupted(
                Reason::Meta(MetaFault::EfSearchBelowM { ef: p.ef_search_default, m: p.m }),
            ),
        )
    } else {
        match node::geometry_check(p.dim, p.m, p.m_max0) {
            Err(HnswError::InvalidArgument(reason)) => Some(HnswError::Corrupted(reason)),
            Err(e) => Some(e),
            Ok(_) => None,
        }
    }
}

/// What is wrong with the entry point and its level, if anything.
pub open spec fn runtime_fault(p: MetaParams) -> Option<HnswError> {
    let l_max = rng::top_level(p.m as nat) as u8;
    if p.max_level > 63 {
        Some(
            HnswError::Corrupted(
                Reason::Meta(MetaFault::MaxLevelWide { max_level: p.max_level }),
            ),
        )
    } else if p.max_level > l_max {
        Some(
            HnswError::Corrupted(
                Reason::Meta(
                    MetaFault::MaxLevelAbove { max_level: p.max_level, m: p.m, l_max },
                ),
            ),
        )
    } else if p.entry_point == params::INVALID_NODE && p.max_level != 0 {
        Some(
            HnswError::Corrupted(
                Reason::Meta(MetaFault::InvalidEntry { max_level: p.max_level }),
            ),
        )
    } else {
        None
    }
}

/// The parameters that a meta page may hold.
pub open spec fn valid(p: MetaParams) -> bool {
    &&& creation_fault(p) is None
    &&& p.dir_head.0 != storage::INVALID_PAGE
    &&& runtime_fault(p) is None
}

/// The parameters in the fields of a page, given what its codes stand for.
pub open spec fn fields(p: Seq<u8>, metric: Metric, selection: NeighborSelection) -> MetaParams {
    MetaParams {
        entry_point: bytes::le32(p, 32),
        max_level: p[36],
        metric,
        selection,
        dim: bytes::le16(p, 40),
        m: bytes::le16(p, 42),
        m_max0: bytes::le16(p, 44),
        ef_construction: bytes::le32(p, 46),
        ef_search_default: bytes::le32(p, 50),
        rng_seed: bytes::le64(p, 56),
        dir_head: PageId(bytes::le64(p, 64)),
    }
}

/// What [`read_meta`] answers; the checks in this order.
pub open spec fn meta_of(p: Seq<u8>) -> Result<MetaParams, HnswError> {
    if storage::pd_flags(p) != page::PAGE_TYPE_META {
        Err(
            HnswError::Corrupted(
                Reason::Meta(MetaFault::NotMeta { tag: storage::pd_flags(p) }),
            ),
        )
    } else if p[37] != META_FORMAT_VERSION {
        Err(HnswError::Corrupted(Reason::Meta(MetaFault::Version { version: p[37] })))
    } else {
        match (Metric::decoded(p[38]), NeighborSelection::decoded(p[39])) {
            (Err(e), _) => Err(e),
            (_, Err(e)) => Err(e),
            (Ok(metric), Ok(selection)) => {
                let q = fields(p, metric, selection);
                if creation_fault(q) is Some {
                    Err(creation_fault(q)->0)
                } else if bytes::le16(p, 54) != 0 {
                    Err(
                        HnswError::Corrupted(
                            Reason::Meta(MetaFault::Reserved { value: bytes::le16(p, 54) }),
                        ),
                    )
                } else if q.dir_head.0 == storage::INVALID_PAGE {
                    Err(HnswError::Corrupted(Reason::Meta(MetaFault::DirHead)))
                } else if bytes::le16(p, 72) != SNAPSHOT_VERSION {
                    Err(
                        HnswError::Corrupted(
                            Reason::Meta(
                                MetaFault::SnapshotVersion { version: bytes::le16(p, 72) },
                            ),
                        ),
                    )
                } else if runtime_fault(q) is Some {
                    Err(runtime_fault(q)->0)
                } else {
                    Ok(q)
                }
            },
        }
    }
}

/// The page with the parameters written over its fields.
pub open spec fn meta_written(p: Seq<u8>, q: MetaParams) -> Seq<u8> {
    let p = bytes::splice(p, 32, bytes::u32_le(q.entry_point)).update(36, q.max_level);
    let p = p.update(37, META_FORMAT_VERSION).update(38, q.metric.code()).update(
        39,
        q.selection.code(),
    );
    let p = bytes::splice(p, 40, bytes::u16_le(q.dim));
    let p = bytes::splice(p, 42, bytes::u16_le(q.m));
    let p = bytes::splice(p, 44, bytes::u16_le(q.m_max0));
    let p = bytes::splice(p, 46, bytes::u32_le(q.ef_construction));
    let p = bytes::splice(p, 50, bytes::u32_le(q.ef_search_default));
    let p = bytes::splice(p, 54, bytes::u16_le(0));
    let p = bytes::splice(p, 56, bytes::u64_le(q.rng_seed));
    let p = bytes::splice(p, 64, bytes::u64_le(q.dir_head.0));
    bytes::splice(p, 72, bytes::u16_le(SNAPSHOT_VERSION))
}

/// The page with another entry point and level.
pub open spec fn meta_applied(p: Seq<u8>, entry_point: u32, max_level: u8) -> Seq<u8> {
    bytes::splice(p, 32, bytes::u32_le(entry_point)).update(36, max_level)
}

/// Writing parameters changes nothing but their fields, which then hold
/// them.
pub proof fn lemma_written_fields(p: Seq<u8>, q: MetaParams)
    requires
        p.len() == PAGE_SIZE,
    ensures
        meta_written(p, q).len() == PAGE_SIZE,
        forall|i: int| 0 <= i < 32 || 74 <= i < PAGE_SIZE ==> meta_written(p, q)[i] == p[i],
        fields(meta_written(p, q), q.metric, q.selection) == q,
        meta_written(p, q)[37] == META_FORMAT_VERSION,
        meta_written(p, q)[38] == q.metric.code(),
        meta_written(p, q)[39] == q.selection.code(),
        bytes::le16(meta_written(p, q), 54) == 0,
        bytes::le16(meta_written(p, q), 72) == SNAPSHOT_VERSION,
{
    let w = meta_written(p, q);
    bytes::lemma_u32_le(q.entry_point);
    bytes::lemma_u16_le(q.dim);
    bytes::lemma_u16_le(q.m);
    bytes::lemma_u16_le(q.m_max0);
    bytes::lemma_u32_le(q.ef_construction);
    bytes::lemma_u32_le(q.ef_search_default);
    bytes::lemma_u16_le(0);
    bytes::lemma_u64_le(q.rng_seed);
    bytes::lemma_u64_le(q.dir_head.0);
    bytes::lemma_u16_le(SNAPSHOT_VERSION);
    assert(bytes::le32(w, 32) == bytes::le32(bytes::u32_le(q.entry_point), 0)) by {
        let b = bytes::u32_le(q.entry_point);
        assert(w[32] == b[0] && w[33] == b[1] && w[34] == b[2] && w[35] == b[3]);
    }
    assert(bytes::le16(w, 40) == q.dim) by {
        let b = bytes::u16_le(q.dim);
        assert(w[40] == b[0] && w[41] == b[1]);
    }
    assert(bytes::le16(w, 42) == q.m) by {
        let b = bytes::u16_le(q.m);
        assert(w[42] == b[0] && w[43] == b[1]);
    }
    assert(bytes::le16(w, 44) == q.m_max0) by {
        let b = bytes::u16_le(q.m_max0);
        assert(w[44] == b[0] && w[45] == b[1]);
    }
    assert(bytes::le32(w, 46) == q.ef_construction) by {
        let b = bytes::u32_le(q.ef_construction);
        assert(w[46] == b[0] && w[47] == b[1] && w[48] == b[2] && w[49] == b[3]);
    }
    assert(bytes::le32(w, 50) == q.ef_search_default) by {
        let b = bytes::u32_le(q.ef_search_default);
        assert(w[50] == b[0] && w[51] == b[1] && w[52] == b[2] && w[53] == b[3]);
    }
    assert(bytes::le16(w, 54) == 0) by {
        let b = bytes::u16_le(0);
        assert(w[54] == b[0] && w[55] == b[1]);
    }
    assert(bytes::le64(w, 56) == q.rng_seed) by {
        let b = bytes::u64_le(q.rng_seed);
        assert(w[56] == b[0] && w[57] == b[1] && w[58] == b[2] && w[59] == b[3]);
        assert(w[60] == b[4] && w[61] == b[5] && w[62] == b[6] && w[63] == b[7]);
    }
    assert(bytes::le64(w, 64) == q.dir_head.0) by {
        let b = bytes::u64_le(q.dir_head.0);
        assert(w[64] == b[0] && w[65] == b[1] && w[66] == b[2] && w[67] == b[3]);
        assert(w[68] == b[4] && w[69] == b[5] && w[70] == b[6] && w[71] == b[7]);
    }
    assert(bytes::le16(w, 72) == SNAPSHOT_VERSION) by {
        let b = bytes::u16_le(SNAPSHOT_VERSION);
        assert(w[72] == b[0] && w[73] == b[1]);
    }
}

/// What is written to a meta page reads back: every valid set of parameters
/// is given back unchanged, and no other is given back at all.
pub proof fn lemma_meta_round_trip(p: Seq<u8>, q: MetaParams)
    requires
        p.len() == PAGE_SIZE,
        storage::pd_flags(p) == page::PAGE_TYPE_META,
    ensures
        valid(q) <==> meta_of(meta_written(p, q)) == Ok::<MetaParams, HnswError>(q),
        !valid(q) ==> meta_of(meta_written(p, q)) is Err,
{
    lemma_written_fields(p, q);
    let w = meta_written(p, q);
    assert(w[12] == p[12] && w[13] == p[13]);
}

/// A meta page that reads holds valid parameters.
pub proof fn lemma_read_meta_is_valid(p: Seq<u8>)
    ensures
        meta_of(p) matches Ok(q) ==> valid(q),
{
}

/// Replacing the entry point and its level changes nothing else: the other
/// parameters stay as they are.
pub proof fn lemma_meta_applied(p: Seq<u8>, entry_point: u32, max_level: u8)
    requires
        p.len() == PAGE_SIZE,
        meta_of(p) is Ok,
    ensures
        ({
            let q = MetaParams { entry_point, max_level, ..meta_of(p)->Ok_0 };
            valid(q) ==> meta_of(meta_applied(p, entry_point, max_level)) == Ok::<
                MetaParams,
                HnswError,
            >(q)
        }),
        meta_applied(meta_applied(p, entry_point, max_level), entry_point, max_level)
            == meta_applied(p, entry_point, max_level),
{
    let w = meta_applied(p, entry_point, max_level);
    bytes::lemma_u32_le(entry_point);
    let b = bytes::u32_le(entry_point);
    assert(w[32] == b[0] && w[33] == b[1] && w[34] == b[2] && w[35] == b[3]);
    assert(forall|i: int| 0 <= i < 32 || 37 <= i < PAGE_SIZE ==> w[i] == p[i]);
    assert(w[12] == p[12] && w[13] == p[13] && w[37] == p[37]);
    let q0 = meta_of(p)->Ok_0;
    assert(fields(w, q0.metric, q0.selection) == MetaParams { entry_point, max_level, ..q0 });
    assert(meta_applied(w, entry_point, max_level) =~= w);
}

/// Writes the parameters onto an initialized meta page.
pub fn write_meta(page: &mut Page, q: &MetaParams)
    ensures
        final(page)@ == meta_written(old(page)@, *q),
{
    bytes::put_u32(page, META_OFF_ENTRY_POINT, q.entry_point);
    page[META_OFF_MAX_LEVEL] = q.max_level;
    page[META_OFF_FORMAT_VERSION] = META_FORMAT_VERSION;
    page[META_OFF_METRIC] = q.metric.discriminant();
    page[META_OFF_SELECTION] = q.selection.discriminant();
    bytes::put_u16(page, META_OFF_DIM, q.dim);
    bytes::put_u16(page, META_OFF_M, q.m);
    bytes::put_u16(page, META_OFF_M_MAX0, q.m_max0);
    bytes::put_u32(page, META_OFF_EF_CONSTRUCTION, q.ef_construction);
    bytes::put_u32(page, META_OFF_EF_SEARCH_DEFAULT, q.ef_search_default);
    bytes::put_u16(page, META_OFF_RESERVED, 0);
    bytes::put_u64(page, META_OFF_RNG_SEED, q.rng_seed);
    bytes::put_u64(page, META_OFF_DIR_HEAD, q.dir_head.0);
    bytes::put_u16(page, META_OFF_SNAPSHOT_FORMAT_VERSION, SNAPSHOT_VERSION);
}

/// Checks the parameters fixed at creation.
fn check_creation(q: &MetaParams) -> (r: Result<(), HnswError>)
    ensures
        match creation_fault(*q) {
            Some(e) => r == Err::<(), HnswError>(e),
            None => r == Ok::<(), HnswError>(()),
        },
{
    if q.dim == 0 {
        return Err(HnswError::Corrupted(Reason::Meta(MetaFault::DimZero)));
    }
    if q.m < 2 {
        return Err(HnswError::Corrupted(Reason::Meta(MetaFault::MBelowTwo { m: q.m })));
    }
    if q.m_max0 < q.m {
        return Err(
            HnswError::Corrupted(
                Reason::Meta(MetaFault::MMax0BelowM { m_max0: q.m_max0, m: q.m }),
            ),
        );
    }
    if q.ef_construction < q.m as u32 {
        return Err(
            HnswError::Corrupted(
                Reason::Meta(MetaFault::EfConstructionBelowM { ef: q.ef_construction, m: q.m }),
            ),
        );
    }
    if q.ef_search_default < q.m as u32 {
        return Err(
            HnswError::Corrupted(
                Reason::Meta(MetaFault::EfSearchBelowM { ef: q.ef_search_default, m: q.m }),
            ),
        );
    }
    match node::check_creation_geometry(q.dim, q.m, q.m_max0) {
        Err(HnswError::InvalidArgument(reason)) => Err(HnswError::Corrupted(reason)),
        Err(e) => Err(e),
        Ok(_) => Ok(()),
    }
}

/// Checks the entry point and its level.
fn check_runtime(q: &MetaParams) -> (r: Result<(), HnswError>)
    requires
        q.m >= 2,
    ensures
        match runtime_fault(*q) {
            Some(e) => r == Err::<(), HnswError>(e),
            None => r == Ok::<(), HnswError>(()),
        },
{
    if q.max_level > 63 {
        return Err(
            HnswError::Corrupted(
                Reason::Meta(MetaFault::MaxLevelWide { max_level: q.max_level }),
            ),
        );
    }
    let l_max: u8 = rng::l_max(q.m);
    if q.max_level > l_max {
        return Err(
            HnswError::Corrupted(
                Reason::Meta(
                    MetaFault::MaxLevelAbove { max_level: q.max_level, m: q.m, l_max },
                ),
            ),
        );
    }
    if q.entry_point == params::INVALID_NODE && q.max_level != 0 {
        return Err(
            HnswError::Corrupted(
                Reason::Meta(MetaFault::InvalidEntry { max_level: q.max_level }),
            ),
        );
    }
    Ok(())
}

/// Whatever is wrong with a meta page, it is reported as corruption: geometry
/// that does not fit a page too, which is an invalid argument only when an
/// index is created.
pub proof fn lemma_violations_are_corruption(p: Seq<u8>)
    ensures
        meta_of(p) matches Err(e) ==> e is Corrupted,
{
}

/// Reads a meta page and checks its structure. Every domain rule of creation
/// holds of the stored parameters too; `max_level` is one that a level draw
/// can give, and an entry point is missing only from an empty graph.
pub fn read_meta(page: &Page) -> (r: Result<MetaParams, HnswError>)
    ensures
        r == meta_of(page@),
{
    let tag: u16 = page::page_type(page);
    if tag != page::PAGE_TYPE_META {
        return Err(HnswError::Corrupted(Reason::Meta(MetaFault::NotMeta { tag })));
    }
    let version: u8 = page[META_OFF_FORMAT_VERSION];
    if version != META_FORMAT_VERSION {
        return Err(HnswError::Corrupted(Reason::Meta(MetaFault::Version { version })));
    }
    let metric: Metric = match Metric::from_discriminant(page[META_OFF_METRIC]) {
        Err(e) => {
            return Err(e);
        },
        Ok(x) => x,
    };
    let selection: NeighborSelection = match NeighborSelection::from_discriminant(
        page[META_OFF_SELECTION],
    ) {
        Err(e) => {
            return Err(e);
        },
        Ok(x) => x,
    };
    let q = MetaParams {
        entry_point: bytes::get_u32(page, META_OFF_ENTRY_POINT),
        max_level: page[META_OFF_MAX_LEVEL],
        metric,
        selection,
        dim: bytes::get_u16(page, META_OFF_DIM),
        m: bytes::get_u16(page, META_OFF_M),
        m_max0: bytes::get_u16(page, META_OFF_M_MAX0),
        ef_construction: bytes::get_u32(page, META_OFF_EF_CONSTRUCTION),
        ef_search_default: bytes::get_u32(page, META_OFF_EF_SEARCH_DEFAULT),
        rng_seed: bytes::get_u64(page, META_OFF_RNG_SEED),
        dir_head: PageId(bytes::get_u64(page, META_OFF_DIR_HEAD)),
    };
    match check_creation(&q) {
        Err(e) => {
            return Err(e);
        },
        Ok(_) => {},
    }
    let reserved: u16 = bytes::get_u16(page, META_OFF_RESERVED);
    if reserved != 0 {
        return Err(HnswError::Corrupted(Reason::Meta(MetaFault::Reserved { value: reserved })));
    }
    if q.dir_head.0 == storage::INVALID_PAGE {
        return Err(HnswError::Corrupted(Reason::Meta(MetaFault::DirHead)));
    }
    let snapshot: u16 = bytes::get_u16(page, META_OFF_SNAPSHOT_FORMAT_VERSION);
    if snapshot != SNAPSHOT_VERSION {
        return Err(
            HnswError::Corrupted(Reason::Meta(MetaFault::SnapshotVersion { version: snapshot })),
        );
    }
    match check_runtime(&q) {
        Err(e) => Err(e),
        Ok(_) => Ok(q),
    }
}

/// What a caller believes an index was created with.
#[derive(Debug, Clone, Copy, PartialEq, Eq, Structural)]
pub struct ExpectedParams {
    /// Expected vector dimension.
    pub dim: u16,
    /// Expected M.
    pub m: u16,
    /// Expected M_max0.
    pub m_max0: u16,
    /// Expected ef_construction.
    pub ef_construction: u32,
    /// Expected ef_search_default, which may differ.
    pub ef_search_default: u32,
    /// Expected metric.
    pub metric: Metric,
    /// Expected neighbor-selection mode.
    pub selection: NeighborSelection,
}

/// The first stored parameter that is not the expected one, among those that
/// would silently change what the graph means.
pub open spec fn expectation_fault(q: MetaParams, e: ExpectedParams) -> Option<HnswError> {
    if q.dim != e.dim {
        Some(mismatch("dim", q.dim as u64, e.dim as u64))
    } else if q.m != e.m {
        Some(mismatch("m", q.m as u64, e.m as u64))
    } else if q.m_max0 != e.m_max0 {
        Some(mismatch("m_max0", q.m_max0 as u64, e.m_max0 as u64))
    } else if q.ef_construction != e.ef_construction {
        Some(mismatch("ef_construction", q.ef_construction as u64, e.ef_construction as u64))
    } else if q.metric != e.metric {
        Some(
            HnswError::InvalidArgument(
                Reason::Meta(
                    MetaFault::MismatchName {
                        field: "metric",
                        stored: q.metric.spec_name(),
                        expected: e.metric.spec_name(),
                    },
                ),
            ),
        )
    } else if q.selection != e.selection {
        Some(
            HnswError::InvalidArgument(
                Reason::Meta(
                    MetaFault::MismatchName {
                        field: "neighbor_selection",
                        stored: q.selection.spec_name(),
                        expected: e.selection.spec_name(),
                    },
                ),
            ),
        )
    } else {
        None
    }
}

/// The error for a stored number that is not the expected one.
pub open spec fn mismatch(field: &'static str, stored: u64, expected: u64) -> HnswError {
    HnswError::InvalidArgument(Reason::Meta(MetaFault::Mismatch { field, stored, expected }))
}

/// The warning for a default beam width that is not the expected one.
pub open spec fn ef_warning(stored: u32, expected: u32) -> Seq<Piece> {
    seq![
        Piece::Lit("ef_search_default: meta page says "),
        Piece::Num(stored as u64),
        Piece::Lit(", caller expected "),
        Piece::Num(expected as u64),
        Piece::Lit(" — performance knob only, using the meta value (WARN-not-fail)"),
    ]
}

/// The warnings about a stored set of parameters.
pub open spec fn warning_texts(q: MetaParams, e: ExpectedParams) -> Seq<Seq<char>> {
    if q.ef_search_default != e.ef_search_default {
        seq![text::text_of(ef_warning(q.ef_search_default, e.ef_search_default))]
    } else {
        Seq::empty()
    }
}

/// The views of a list of strings.
pub open spec fn texts(v: Seq<String>) -> Seq<Seq<char>> {
    Seq::new(v.len(), |i: int| v[i]@)
}

/// Checks stored parameters against what the caller expects. A parameter
/// that decides what the graph means must agree; a different
/// `ef_search_default` is only worth a warning, and the stored value counts.
pub fn check_expected(q: &MetaParams, e: &ExpectedParams) -> (r: Result<Vec<String>, HnswError>)
    ensures
        match expectation_fault(*q, *e) {
            Some(f) => r == Err::<Vec<String>, HnswError>(f),
            None => r matches Ok(w) && texts(w@) == warning_texts(*q, *e),
        },
{
    if q.dim != e.dim {
        return Err(differs("dim", q.dim as u64, e.dim as u64));
    }
    if q.m != e.m {
        return Err(differs("m", q.m as u64, e.m as u64));
    }
    if q.m_max0 != e.m_max0 {
        return Err(differs("m_max0", q.m_max0 as u64, e.m_max0 as u64));
    }
    if q.ef_construction != e.ef_construction {
        return Err(
            differs("ef_construction", q.ef_construction as u64, e.ef_construction as u64),
        );
    }
    if q.metric != e.metric {
        return Err(
            HnswError::InvalidArgument(
                Reason::Meta(
                    MetaFault::MismatchName {
                        field: "metric",
                        stored: q.metric.name(),
                        expected: e.metric.name(),
                    },
                ),
            ),
        );
    }
    if q.selection != e.selection {
        return Err(
            HnswError::InvalidArgument(
                Reason::Meta(
                    MetaFault::MismatchName {
                        field: "neighbor_selection",
                        stored: q.selection.name(),
                        expected: e.selection.name(),
                    },
                ),
            ),
        );
    }
    let mut warnings: Vec<String> = Vec::new();
    if q.ef_search_default != e.ef_search_default {
        let parts: Vec<Piece> = vec![
            Piece::Lit("ef_search_default: meta page says "),
            Piece::Num(q.ef_search_default as u64),
            Piece::Lit(", caller expected "),
            Piece::Num(e.ef_search_default as u64),
            Piece::Lit(" — performance knob only, using the meta value (WARN-not-fail)"),
        ];
        assert(parts@ =~= ef_warning(q.ef_search_default, e.ef_search_default));
        warnings.push(text::render(&parts));
    }
    assert(texts(warnings@) =~= warning_texts(*q, *e));
    Ok(warnings)
}

/// The error for a stored number that is not the expected one.
fn differs(field: &'static str, stored: u64, expected: u64) -> (r: HnswError)
    ensures
        r == mismatch(field, stored, expected),
{
    HnswError::InvalidArgument(Reason::Meta(MetaFault::Mismatch { field, stored, expected }))
}

} // verus!
