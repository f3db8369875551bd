//! What went wrong, as data.
//!
//! Every refusal in this crate carries one of the faults below, with the
//! numbers that it is about; `Reason` is their union. The text of a fault is
//! a list of [`Piece`]s, rendered by [`text::render`].

use vstd::prelude::*;

use crate::model::ProbeMark;
use crate::text;
use crate::text::Piece;

verus! {

/// A construction parameter outside its domain.
#[derive(Debug, Clone, Copy)]
#[allow(inconsistent_fields)]
pub enum ParamFault {
    /// `M` is below two.
    MBelowTwo { m: u16 },
    /// `M_max0` is below `M`.
    MMax0BelowM { m_max0: u16, m: u16 },
    /// `ef_construction` is below `M`.
    EfConstructionBelowM { ef: u32, m: u16 },
    /// `ef_search_default` is below `M`.
    EfSearchBelowM { ef: u32, m: u16 },
}

impl ParamFault {
    /// The pieces of this fault's text.
    pub open spec fn parts(self) -> Seq<Piece> {
        match self {
            ParamFault::MBelowTwo { m } => seq![Piece::Lit("M = "), Piece::Num(m as u64), Piece::Lit(" < 2 (the geometric level distribution needs ln(M) > 0)")],
            ParamFault::MMax0BelowM { m_max0, m } => seq![Piece::Lit("M_max0 = "), Piece::Num(m_max0 as u64), Piece::Lit(" < M = "), Piece::Num(m as u64), Piece::Lit(" (the layer-0 cap must fit one full neighbor set)")],
            ParamFault::EfConstructionBelowM { ef, m } => seq![Piece::Lit("ef_construction = "), Piece::Num(ef as u64), Piece::Lit(" < M = "), Piece::Num(m as u64), Piece::Lit(" (the candidate pool must fit one full neighbor set)")],
            ParamFault::EfSearchBelowM { ef, m } => seq![Piece::Lit("ef_search_default = "), Piece::Num(ef as u64), Piece::Lit(" < M = "), Piece::Num(m as u64), Piece::Lit(" (constrains the construction default, not per-query ef)")],
        }
    }

    /// The pieces of this fault's text.
    pub fn pieces(&self) -> (r: Vec<Piece>)
        ensures
            r@ == self.parts(),
    {
        let r: Vec<Piece> = match *self {
            ParamFault::MBelowTwo { m } => vec![Piece::Lit("M = "), Piece::Num(m as u64), Piece::Lit(" < 2 (the geometric level distribution needs ln(M) > 0)")],
            ParamFault::MMax0BelowM { m_max0, m } => vec![Piece::Lit("M_max0 = "), Piece::Num(m_max0 as u64), Piece::Lit(" < M = "), Piece::Num(m as u64), Piece::Lit(" (the layer-0 cap must fit one full neighbor set)")],
            ParamFault::EfConstructionBelowM { ef, m } => vec![Piece::Lit("ef_construction = "), Piece::Num(ef as u64), Piece::Lit(" < M = "), Piece::Num(m as u64), Piece::Lit(" (the candidate pool must fit one full neighbor set)")],
            ParamFault::EfSearchBelowM { ef, m } => vec![Piece::Lit("ef_search_default = "), Piece::Num(ef as u64), Piece::Lit(" < M = "), Piece::Num(m as u64), Piece::Lit(" (constrains the construction default, not per-query ef)")],
        };
        assert(r@ =~= self.parts());
        r
    }
}

/// A vector that no distance function accepts.
#[derive(Debug, Clone, Copy)]
#[allow(inconsistent_fields)]
pub enum VectorFault {
    /// The two vectors differ in length.
    DimMismatch { left: usize, right: usize },
    /// The vectors are empty.
    DimZero,
    /// A component is NaN or infinite.
    NonFinite { index: usize },
}

impl VectorFault {
    /// The pieces of this fault's text.
    pub open spec fn parts(self) -> Seq<Piece> {
        match self {
            VectorFault::DimMismatch { left, right } => seq![Piece::Lit("dimension mismatch: "), Piece::Num(left as u64), Piece::Lit(" vs "), Piece::Num(right as u64)],
            VectorFault::DimZero => seq![Piece::Lit("dim = 0 vector")],
            VectorFault::NonFinite { index } => seq![Piece::Lit("non-finite component (NaN or ±inf) at index "), Piece::Num(index as u64), Piece::Lit(" (entry rejection is the only defense)")],
        }
    }

    /// The pieces of this fault's text.
    pub fn pieces(&self) -> (r: Vec<Piece>)
        ensures
            r@ == self.parts(),
    {
        let r: Vec<Piece> = match *self {
            VectorFault::DimMismatch { left, right } => vec![Piece::Lit("dimension mismatch: "), Piece::Num(left as u64), Piece::Lit(" vs "), Piece::Num(right as u64)],
            VectorFault::DimZero => vec![Piece::Lit("dim = 0 vector")],
            VectorFault::NonFinite { index } => vec![Piece::Lit("non-finite component (NaN or ±inf) at index "), Piece::Num(index as u64), Piece::Lit(" (entry rejection is the only defense)")],
        };
        assert(r@ =~= self.parts());
        r
    }
}

/// A node record that does not decode.
#[derive(Debug, Clone, Copy)]
#[allow(inconsistent_fields)]
pub enum RecordFault {
    /// The bytes end inside a field.
    Truncated { need: usize, what: &'static str, have: usize },
    /// The flags byte is not zero.
    Flags { byte: u8 },
    /// The reserved byte is not zero.
    Reserved { byte: u8 },
    /// A vector component is NaN or infinite.
    NonFinite { index: usize },
    /// The record has no level.
    LevelCountZero,
    /// The record has too many levels.
    LevelCountAbove { count: u8 },
}

impl RecordFault {
    /// The pieces of this fault's text.
    pub open spec fn parts(self) -> Seq<Piece> {
        match self {
            RecordFault::Truncated { need, what, have } => seq![Piece::Lit("truncated node record: need "), Piece::Num(need as u64), Piece::Lit(" bytes for "), Piece::Lit(what), Piece::Lit(", have "), Piece::Num(have as u64)],
            RecordFault::Flags { byte } => seq![Piece::Lit("unknown node flags 0x"), Piece::Hex2(byte), Piece::Lit(" (this format writes 0; the tombstone bit is a later format revision)")],
            RecordFault::Reserved { byte } => seq![Piece::Lit("non-zero reserved byte 0x"), Piece::Hex2(byte), Piece::Lit(" (always 0 in this format version)")],
            RecordFault::NonFinite { index } => seq![Piece::Lit("non-finite vector component at index "), Piece::Num(index as u64), Piece::Lit(" (load-side NaN/±inf rejection)")],
            RecordFault::LevelCountZero => seq![Piece::Lit("level_count = 0: level 0 always exists (level_count = top level + 1)")],
            RecordFault::LevelCountAbove { count } => seq![Piece::Lit("level_count "), Piece::Num(count as u64), Piece::Lit(" > 64 (the geometric draw is hard-bounded at level 53 even at M = 2, so no legal graph can reach this)")],
        }
    }

    /// The pieces of this fault's text.
    pub fn pieces(&self) -> (r: Vec<Piece>)
        ensures
            r@ == self.parts(),
    {
        let r: Vec<Piece> = match *self {
            RecordFault::Truncated { need, what, have } => vec![Piece::Lit("truncated node record: need "), Piece::Num(need as u64), Piece::Lit(" bytes for "), Piece::Lit(what), Piece::Lit(", have "), Piece::Num(have as u64)],
            RecordFault::Flags { byte } => vec![Piece::Lit("unknown node flags 0x"), Piece::Hex2(byte), Piece::Lit(" (this format writes 0; the tombstone bit is a later format revision)")],
            RecordFault::Reserved { byte } => vec![Piece::Lit("non-zero reserved byte 0x"), Piece::Hex2(byte), Piece::Lit(" (always 0 in this format version)")],
            RecordFault::NonFinite { index } => vec![Piece::Lit("non-finite vector component at index "), Piece::Num(index as u64), Piece::Lit(" (load-side NaN/±inf rejection)")],
            RecordFault::LevelCountZero => vec![Piece::Lit("level_count = 0: level 0 always exists (level_count = top level + 1)")],
            RecordFault::LevelCountAbove { count } => vec![Piece::Lit("level_count "), Piece::Num(count as u64), Piece::Lit(" > 64 (the geometric draw is hard-bounded at level 53 even at M = 2, so no legal graph can reach this)")],
        };
        assert(r@ =~= self.parts());
        r
    }
}

/// A snapshot byte stream, or the graph data for one, that is malformed.
#[derive(Debug, Clone, Copy)]
#[allow(inconsistent_fields)]
pub enum CodecFault {
    /// The bytes end inside the header.
    HeaderTruncated { len: usize },
    /// The magic number is wrong.
    BadMagic { magic: u32 },
    /// The format version is not the one read here.
    UnknownVersion { version: u16 },
    /// The header has no dimension.
    HeaderDimZero,
    /// The header's `M` is below two.
    HeaderMBelowTwo { m: u16 },
    /// The header's `ef_construction` is below `M`.
    HeaderEfBelowM { ef: u32, m: u16 },
    /// The header's `M_max0` is below `M`.
    HeaderMMax0BelowM { m_max0: u16, m: u16 },
    /// A vector to encode has the wrong length.
    VectorLen { len: usize, dim: u16 },
    /// A record to encode has no level.
    LevelCountZero,
    /// A record to encode has too many levels.
    LevelCountAbove { count: usize },
    /// A vector to encode has a NaN or infinite component.
    NonFinite { index: usize },
    /// A neighbor list is too long for its count field.
    DegreeWide { level: usize, len: usize },
    /// A node record does not decode.
    Record { fault: RecordFault },
    /// The record at this position does not decode.
    RecordAt { index: u32, fault: RecordFault },
    /// The header's record count is not the number of records.
    NodeCount { declared: u32, actual: usize },
    /// A record was pushed past the declared count.
    TooManyRecords { declared: u32 },
    /// A record and the level summary differ.
    LevelsDisagree { node: usize, count: usize, summary: usize },
    /// A node's vector has the wrong length.
    NodeVectorLen { node: usize, len: usize, dim: u16 },
    /// A node's vector has a NaN or infinite component.
    NodeNonFinite { node: usize, index: usize },
    /// A node has no level.
    NodeLevelCountZero { node: usize },
    /// A node has too many levels.
    NodeLevelCountAbove { node: usize, count: usize },
    /// An empty graph names an entry point.
    EmptyEntryPoint { entry_point: u32 },
    /// An empty graph has a level.
    EmptyMaxLevel { max_level: u8 },
    /// The entry point is not a node.
    EntryPointRange { entry_point: u32, node_count: u32 },
    /// `max_level` is not the entry point's top level.
    MaxLevelMismatch { max_level: u8, top: u8 },
    /// A node stands above `max_level`.
    TopAboveMax { node: usize, top: u8, max_level: u8 },
    /// A neighbor list is over its cap.
    Degree { node: usize, level: usize, degree: usize, cap: usize },
    /// A node is its own neighbor.
    SelfLoop { node: usize, level: usize },
    /// A neighbor list is not strictly ascending.
    NotAscending { node: usize, level: usize, prev: u32, next: u32 },
    /// A neighbor is not a node.
    EndpointMissing { node: usize, level: usize, neighbor: u32, node_count: u32 },
    /// A neighbor does not reach the edge's level.
    EndpointLevel { node: usize, level: usize, neighbor: u32, count: usize },
    /// The body is too short for the declared records.
    NodeCountOverBody { declared: u32, fit: usize, bytes: usize, min: usize },
    /// Bytes follow the last record.
    Trailing { bytes: usize, node_count: u32 },
    /// The bytes end inside the checksum prefix.
    CrcShort { len: usize },
}

impl CodecFault {
    /// The pieces of this fault's text.
    pub open spec fn parts(self) -> Seq<Piece> {
        match self {
            CodecFault::HeaderTruncated { len } => seq![Piece::Lit("snapshot header truncated: "), Piece::Num(len as u64), Piece::Lit(" bytes, need 25")],
            CodecFault::BadMagic { magic } => seq![Piece::Lit("bad magic 0x"), Piece::Hex8(magic), Piece::Lit(" (expected 0x57534e48 — not an HNSW snapshot)")],
            CodecFault::UnknownVersion { version } => seq![Piece::Lit("unknown format_version "), Piece::Num(version as u64), Piece::Lit(" (this build reads 1)")],
            CodecFault::HeaderDimZero => seq![Piece::Lit("dim = 0 in snapshot header (rejected at every entry point)")],
            CodecFault::HeaderMBelowTwo { m } => seq![Piece::Lit("M = "), Piece::Num(m as u64), Piece::Lit(" < 2 in snapshot header (construction validation re-run)")],
            CodecFault::HeaderEfBelowM { ef, m } => seq![Piece::Lit("ef_construction = "), Piece::Num(ef as u64), Piece::Lit(" < M = "), Piece::Num(m as u64), Piece::Lit(" in snapshot header (construction validation re-run)")],
            CodecFault::HeaderMMax0BelowM { m_max0, m } => seq![Piece::Lit("M_max0 = "), Piece::Num(m_max0 as u64), Piece::Lit(" < M = "), Piece::Num(m as u64), Piece::Lit(" in snapshot header (construction validation re-run)")],
            CodecFault::VectorLen { len, dim } => seq![Piece::Lit("vector has "), Piece::Num(len as u64), Piece::Lit(" components, graph dim is "), Piece::Num(dim as u64), Piece::Lit(" (same graph never mixes dimensions)")],
            CodecFault::LevelCountZero => seq![Piece::Lit("level_count = 0 is unencodable: level 0 always exists")],
            CodecFault::LevelCountAbove { count } => seq![Piece::Lit("level_count "), Piece::Num(count as u64), Piece::Lit(" > 64 (the pub codec must refuse what the decoder refuses — the decoder enforces the same cap at its parse point. Two guardrails, one rule, one constant)")],
            CodecFault::NonFinite { index } => seq![Piece::Lit("non-finite vector component (NaN or ±inf) at index "), Piece::Num(index as u64), Piece::Lit(" (the decoder rejects this at its parse point; write/read symmetry)")],
            CodecFault::DegreeWide { level, len } => seq![Piece::Lit("level "), Piece::Num(level as u64), Piece::Lit(" has "), Piece::Num(len as u64), Piece::Lit(" neighbors, does not fit u16")],
            CodecFault::Record { fault } => fault.parts(),
            CodecFault::RecordAt { index, fault } => seq![Piece::Lit("node record "), Piece::Num(index as u64), Piece::Lit(": ")] + fault.parts(),
            CodecFault::NodeCount { declared, actual } => seq![Piece::Lit("header node_count "), Piece::Num(declared as u64), Piece::Lit(" != "), Piece::Num(actual as u64), Piece::Lit(" node records")],
            CodecFault::TooManyRecords { declared } => seq![Piece::Lit("more node records pushed than header node_count "), Piece::Num(declared as u64)],
            CodecFault::LevelsDisagree { node, count, summary } => seq![Piece::Lit("node "), Piece::Num(node as u64), Piece::Lit(": record level_count "), Piece::Num(count as u64), Piece::Lit(" disagrees with the levels summary ("), Piece::Num(summary as u64), Piece::Lit("); the summary and the records must agree")],
            CodecFault::NodeVectorLen { node, len, dim } => seq![Piece::Lit("node "), Piece::Num(node as u64), Piece::Lit(": vector has "), Piece::Num(len as u64), Piece::Lit(" components, header dim is "), Piece::Num(dim as u64)],
            CodecFault::NodeNonFinite { node, index } => seq![Piece::Lit("node "), Piece::Num(node as u64), Piece::Lit(": non-finite component (NaN or ±inf) at index "), Piece::Num(index as u64)],
            CodecFault::NodeLevelCountZero { node } => seq![Piece::Lit("node "), Piece::Num(node as u64), Piece::Lit(": level_count = 0 (level 0 always exists)")],
            CodecFault::NodeLevelCountAbove { node, count } => seq![Piece::Lit("node "), Piece::Num(node as u64), Piece::Lit(": level_count "), Piece::Num(count as u64), Piece::Lit(" > 64 (the geometric draw is hard-bounded at level 53 even at M = 2, so no legal graph can reach this)")],
            CodecFault::EmptyEntryPoint { entry_point } => seq![Piece::Lit("empty graph must encode entry_point = u32::MAX sentinel, got 0x"), Piece::Hex8(entry_point)],
            CodecFault::EmptyMaxLevel { max_level } => seq![Piece::Lit("empty graph must encode max_level = 0, got "), Piece::Num(max_level as u64), Piece::Lit(" (no nodes, no levels)")],
            CodecFault::EntryPointRange { entry_point, node_count } => seq![Piece::Lit("entry_point "), Piece::Num(entry_point as u64), Piece::Lit(" >= node_count "), Piece::Num(node_count as u64)],
            CodecFault::MaxLevelMismatch { max_level, top } => seq![Piece::Lit("max_level "), Piece::Num(max_level as u64), Piece::Lit(" != entry node's top level "), Piece::Num(top as u64)],
            CodecFault::TopAboveMax { node, top, max_level } => seq![Piece::Lit("node "), Piece::Num(node as u64), Piece::Lit(" top level "), Piece::Num(top as u64), Piece::Lit(" exceeds max_level "), Piece::Num(max_level as u64), Piece::Lit(" (the entry point is the highest node)")],
            CodecFault::Degree { node, level, degree, cap } => seq![Piece::Lit("node "), Piece::Num(node as u64), Piece::Lit(" level "), Piece::Num(level as u64), Piece::Lit(": degree "), Piece::Num(degree as u64), Piece::Lit(" exceeds m_max("), Piece::Num(level as u64), Piece::Lit(") = "), Piece::Num(cap as u64), Piece::Lit(" (a quiescent graph never exceeds the cap)")],
            CodecFault::SelfLoop { node, level } => seq![Piece::Lit("node "), Piece::Num(node as u64), Piece::Lit(" level "), Piece::Num(level as u64), Piece::Lit(": self-loop (an adjacency list never contains its owner)")],
            CodecFault::NotAscending { node, level, prev, next } => seq![Piece::Lit("node "), Piece::Num(node as u64), Piece::Lit(" level "), Piece::Num(level as u64), Piece::Lit(": adjacency list not strictly ascending (NodeId("), Piece::Num(prev as u64), Piece::Lit(") then NodeId("), Piece::Num(next as u64), Piece::Lit(") — the canonical order has no duplicates and no descent)")],
            CodecFault::EndpointMissing { node, level, neighbor, node_count } => seq![Piece::Lit("node "), Piece::Num(node as u64), Piece::Lit(" level "), Piece::Num(level as u64), Piece::Lit(": neighbor "), Piece::Num(neighbor as u64), Piece::Lit(" >= node_count "), Piece::Num(node_count as u64), Piece::Lit(" (adjacency endpoint does not exist)")],
            CodecFault::EndpointLevel { node, level, neighbor, count } => seq![Piece::Lit("node "), Piece::Num(node as u64), Piece::Lit(" level "), Piece::Num(level as u64), Piece::Lit(": neighbor "), Piece::Num(neighbor as u64), Piece::Lit(" has no level "), Piece::Num(level as u64), Piece::Lit(" (its level_count is "), Piece::Num(count as u64), Piece::Lit("; an edge requires both endpoints to have the level)")],
            CodecFault::NodeCountOverBody { declared, fit, bytes, min } => seq![Piece::Lit("node_count "), Piece::Num(declared as u64), Piece::Lit(" exceeds the "), Piece::Num(fit as u64), Piece::Lit(" records that fit in the "), Piece::Num(bytes as u64), Piece::Lit(" remaining body bytes (min record size "), Piece::Num(min as u64), Piece::Lit(")")],
            CodecFault::Trailing { bytes, node_count } => seq![Piece::Num(bytes as u64), Piece::Lit(" trailing bytes after "), Piece::Num(node_count as u64), Piece::Lit(" node records (position is identity — the stream must end exactly)")],
            CodecFault::CrcShort { len } => seq![Piece::Lit("too short for the CRC32 prefix: "), Piece::Num(len as u64), Piece::Lit(" bytes")],
        }
    }

    /// The pieces of this fault's text.
    pub fn pieces(&self) -> (r: Vec<Piece>)
        ensures
            r@ == self.parts(),
    {
        let r: Vec<Piece> = match *self {
            CodecFault::HeaderTruncated { len } => vec![Piece::Lit("snapshot header truncated: "), Piece::Num(len as u64), Piece::Lit(" bytes, need 25")],
            CodecFault::BadMagic { magic } => vec![Piece::Lit("bad magic 0x"), Piece::Hex8(magic), Piece::Lit(" (expected 0x57534e48 — not an HNSW snapshot)")],
            CodecFault::UnknownVersion { version } => vec![Piece::Lit("unknown format_version "), Piece::Num(version as u64), Piece::Lit(" (this build reads 1)")],
            CodecFault::HeaderDimZero => vec![Piece::Lit("dim = 0 in snapshot header (rejected at every entry point)")],
            CodecFault::HeaderMBelowTwo { m } => vec![Piece::Lit("M = "), Piece::Num(m as u64), Piece::Lit(" < 2 in snapshot header (construction validation re-run)")],
            CodecFault::HeaderEfBelowM { ef, m } => vec![Piece::Lit("ef_construction = "), Piece::Num(ef as u64), Piece::Lit(" < M = "), Piece::Num(m as u64), Piece::Lit(" in snapshot header (construction validation re-run)")],
            CodecFault::HeaderMMax0BelowM { m_max0, m } => vec![Piece::Lit("M_max0 = "), Piece::Num(m_max0 as u64), Piece::Lit(" < M = "), Piece::Num(m as u64), Piece::Lit(" in snapshot header (construction validation re-run)")],
            CodecFault::VectorLen { len, dim } => vec![Piece::Lit("vector has "), Piece::Num(len as u64), Piece::Lit(" components, graph dim is "), Piece::Num(dim as u64), Piece::Lit(" (same graph never mixes dimensions)")],
            CodecFault::LevelCountZero => vec![Piece::Lit("level_count = 0 is unencodable: level 0 always exists")],
            CodecFault::LevelCountAbove { count } => vec![Piece::Lit("level_count "), Piece::Num(count as u64), Piece::Lit(" > 64 (the pub codec must refuse what the decoder refuses — the decoder enforces the same cap at its parse point. Two guardrails, one rule, one constant)")],
            CodecFault::NonFinite { index } => vec![Piece::Lit("non-finite vector component (NaN or ±inf) at index "), Piece::Num(index as u64), Piece::Lit(" (the decoder rejects this at its parse point; write/read symmetry)")],
            CodecFault::DegreeWide { level, len } => vec![Piece::Lit("level "), Piece::Num(level as u64), Piece::Lit(" has "), Piece::Num(len as u64), Piece::Lit(" neighbors, does not fit u16")],
            CodecFault::Record { fault } => fault.pieces(),
            CodecFault::RecordAt { index, fault } => text::joined(vec![Piece::Lit("node record "), Piece::Num(index as u64), Piece::Lit(": ")], fault.pieces()),
            CodecFault::NodeCount { declared, actual } => vec![Piece::Lit("header node_count "), Piece::Num(declared as u64), Piece::Lit(" != "), Piece::Num(actual as u64), Piece::Lit(" node records")],
            CodecFault::TooManyRecords { declared } => vec![Piece::Lit("more node records pushed than header node_count "), Piece::Num(declared as u64)],
            CodecFault::LevelsDisagree { node, count, summary } => vec![Piece::Lit("node "), Piece::Num(node as u64), Piece::Lit(": record level_count "), Piece::Num(count as u64), Piece::Lit(" disagrees with the levels summary ("), Piece::Num(summary as u64), Piece::Lit("); the summary and the records must agree")],
            CodecFault::NodeVectorLen { node, len, dim } => vec![Piece::Lit("node "), Piece::Num(node as u64), Piece::Lit(": vector has "), Piece::Num(len as u64), Piece::Lit(" components, header dim is "), Piece::Num(dim as u64)],
            CodecFault::NodeNonFinite { node, index } => vec![Piece::Lit("node "), Piece::Num(node as u64), Piece::Lit(": non-finite component (NaN or ±inf) at index "), Piece::Num(index as u64)],
            CodecFault::NodeLevelCountZero { node } => vec![Piece::Lit("node "), Piece::Num(node as u64), Piece::Lit(": level_count = 0 (level 0 always exists)")],
            CodecFault::NodeLevelCountAbove { node, count } => vec![Piece::Lit("node "), Piece::Num(node as u64), Piece::Lit(": level_count "), Piece::Num(count as u64), Piece::Lit(" > 64 (the geometric draw is hard-bounded at level 53 even at M = 2, so no legal graph can reach this)")],
            CodecFault::EmptyEntryPoint { entry_point } => vec![Piece::Lit("empty graph must encode entry_point = u32::MAX sentinel, got 0x"), Piece::Hex8(entry_point)],
            CodecFault::EmptyMaxLevel { max_level } => vec![Piece::Lit("empty graph must encode max_level = 0, got "), Piece::Num(max_level as u64), Piece::Lit(" (no nodes, no levels)")],
            CodecFault::EntryPointRange { entry_point, node_count } => vec![Piece::Lit("entry_point "), Piece::Num(entry_point as u64), Piece::Lit(" >= node_count "), Piece::Num(node_count as u64)],
            CodecFault::MaxLevelMismatch { max_level, top } => vec![Piece::Lit("max_level "), Piece::Num(max_level as u64), Piece::Lit(" != entry node's top level "), Piece::Num(top as u64)],
            CodecFault::TopAboveMax { node, top, max_level } => vec![Piece::Lit("node "), Piece::Num(node as u64), Piece::Lit(" top level "), Piece::Num(top as u64), Piece::Lit(" exceeds max_level "), Piece::Num(max_level as u64), Piece::Lit(" (the entry point is the highest node)")],
            CodecFault::Degree { node, level, degree, cap } => vec![Piece::Lit("node "), Piece::Num(node as u64), Piece::Lit(" level "), Piece::Num(level as u64), Piece::Lit(": degree "), Piece::Num(degree as u64), Piece::Lit(" exceeds m_max("), Piece::Num(level as u64), Piece::Lit(") = "), Piece::Num(cap as u64), Piece::Lit(" (a quiescent graph never exceeds the cap)")],
            CodecFault::SelfLoop { node, level } => vec![Piece::Lit("node "), Piece::Num(node as u64), Piece::Lit(" level "), Piece::Num(level as u64), Piece::Lit(": self-loop (an adjacency list never contains its owner)")],
            CodecFault::NotAscending { node, level, prev, next } => vec![Piece::Lit("node "), Piece::Num(node as u64), Piece::Lit(" level "), Piece::Num(level as u64), Piece::Lit(": adjacency list not strictly ascending (NodeId("), Piece::Num(prev as u64), Piece::Lit(") then NodeId("), Piece::Num(next as u64), Piece::Lit(") — the canonical order has no duplicates and no descent)")],
            CodecFault::EndpointMissing { node, level, neighbor, node_count } => vec![Piece::Lit("node "), Piece::Num(node as u64), Piece::Lit(" level "), Piece::Num(level as u64), Piece::Lit(": neighbor "), Piece::Num(neighbor as u64), Piece::Lit(" >= node_count "), Piece::Num(node_count as u64), Piece::Lit(" (adjacency endpoint does not exist)")],
            CodecFault::EndpointLevel { node, level, neighbor, count } => vec![Piece::Lit("node "), Piece::Num(node as u64), Piece::Lit(" level "), Piece::Num(level as u64), Piece::Lit(": neighbor "), Piece::Num(neighbor as u64), Piece::Lit(" has no level "), Piece::Num(level as u64), Piece::Lit(" (its level_count is "), Piece::Num(count as u64), Piece::Lit("; an edge requires both endpoints to have the level)")],
            CodecFault::NodeCountOverBody { declared, fit, bytes, min } => vec![Piece::Lit("node_count "), Piece::Num(declared as u64), Piece::Lit(" exceeds the "), Piece::Num(fit as u64), Piece::Lit(" records that fit in the "), Piece::Num(bytes as u64), Piece::Lit(" remaining body bytes (min record size "), Piece::Num(min as u64), Piece::Lit(")")],
            CodecFault::Trailing { bytes, node_count } => vec![Piece::Num(bytes as u64), Piece::Lit(" trailing bytes after "), Piece::Num(node_count as u64), Piece::Lit(" node records (position is identity — the stream must end exactly)")],
            CodecFault::CrcShort { len } => vec![Piece::Lit("too short for the CRC32 prefix: "), Piece::Num(len as u64), Piece::Lit(" bytes")],
        };
        assert(r@ =~= self.parts());
        r
    }
}

/// A snapshot file refused before or after its body was read.
#[derive(Debug, Clone, Copy)]
#[allow(inconsistent_fields)]
pub enum SnapshotFault {
    /// The file budget does not cover the fixed-width prefix.
    BudgetFloor { budget: u64 },
    /// The path is not a regular file.
    NotRegular,
    /// The file ends inside the fixed-width prefix.
    TooShort { len: u64 },
    /// The file is over the caller's budget.
    FileBudget { len: u64, budget: u64 },
    /// The estimated footprint is over the caller's budget.
    MemoryBudget { estimate: u64, budget: u64 },
    /// The file is too short for the declared records.
    NodeCountOverFile { declared: u32, fit: u64, bytes: u64, min: u64 },
    /// The file is longer than any snapshot with its header.
    TrailingGarbage { bytes: u64, max: u64 },
    /// A zero vector cannot be served under the cosine metric.
    ZeroVector { node: usize },
    /// Every temporary name that was tried is taken.
    NoTempName { attempts: u32 },
    /// The graph takes no insertions.
    ReadOnly,
}

impl SnapshotFault {
    /// The pieces of this fault's text.
    pub open spec fn parts(self) -> Seq<Piece> {
        match self {
            SnapshotFault::BudgetFloor { budget } => seq![Piece::Lit("budget "), Piece::Num(budget as u64), Piece::Lit(" below the 29-byte fixed-width prefix")],
            SnapshotFault::NotRegular => seq![Piece::Lit("snapshot must be a regular file (FIFOs/devices/sockets have no trustworthy length)")],
            SnapshotFault::TooShort { len } => seq![Piece::Lit("snapshot too short: "), Piece::Num(len as u64), Piece::Lit(" bytes, need at least 29 (CRC32 prefix + fixed-width header)")],
            SnapshotFault::FileBudget { len, budget } => seq![Piece::Lit("snapshot file is "), Piece::Num(len as u64), Piece::Lit(" bytes, budget is "), Piece::Num(budget as u64), Piece::Lit(" (load_with_budget; untrusted sources must set a budget)")],
            SnapshotFault::MemoryBudget { estimate, budget } => seq![Piece::Lit("estimated in-memory footprint of this snapshot is "), Piece::Num(estimate as u64), Piece::Lit(" bytes, budget is "), Piece::Num(budget as u64), Piece::Lit(" (load_with_budget; byte budget != memory budget — the SoA materialization amplifies pathological shapes)")],
            SnapshotFault::NodeCountOverFile { declared, fit, bytes, min } => seq![Piece::Lit("node_count "), Piece::Num(declared as u64), Piece::Lit(" exceeds the "), Piece::Num(fit as u64), Piece::Lit(" records that fit in the "), Piece::Num(bytes as u64), Piece::Lit(" body bytes of the file (min record size "), Piece::Num(min as u64), Piece::Lit(") — pre-read length cross-check")],
            SnapshotFault::TrailingGarbage { bytes, max } => seq![Piece::Lit("file is larger than the maximum legal size for its header — trailing garbage ("), Piece::Num(bytes as u64), Piece::Lit(" body bytes > max "), Piece::Num(max as u64), Piece::Lit("; trailing bytes are rejected, checked pre-read so a hostile/sparse file is never fully read)")],
            SnapshotFault::ZeroVector { node } => seq![Piece::Lit("node "), Piece::Num(node as u64), Piece::Lit(": zero vector cannot serve Metric::Cosine — the snapshot was built for a different metric (metric is caller-supplied; entry validation holds at load)")],
            SnapshotFault::NoTempName { attempts } => seq![Piece::Lit("no available temporary snapshot name after "), Piece::Num(attempts as u64), Piece::Lit(" attempts — possible tampering or stale .tmp-* pileup")],
            SnapshotFault::ReadOnly => seq![Piece::Lit("insert: a graph loaded from a snapshot is read-only")],
        }
    }

    /// The pieces of this fault's text.
    pub fn pieces(&self) -> (r: Vec<Piece>)
        ensures
            r@ == self.parts(),
    {
        let r: Vec<Piece> = match *self {
            SnapshotFault::BudgetFloor { budget } => vec![Piece::Lit("budget "), Piece::Num(budget as u64), Piece::Lit(" below the 29-byte fixed-width prefix")],
            SnapshotFault::NotRegular => vec![Piece::Lit("snapshot must be a regular file (FIFOs/devices/sockets have no trustworthy length)")],
            SnapshotFault::TooShort { len } => vec![Piece::Lit("snapshot too short: "), Piece::Num(len as u64), Piece::Lit(" bytes, need at least 29 (CRC32 prefix + fixed-width header)")],
            SnapshotFault::FileBudget { len, budget } => vec![Piece::Lit("snapshot file is "), Piece::Num(len as u64), Piece::Lit(" bytes, budget is "), Piece::Num(budget as u64), Piece::Lit(" (load_with_budget; untrusted sources must set a budget)")],
            SnapshotFault::MemoryBudget { estimate, budget } => vec![Piece::Lit("estimated in-memory footprint of this snapshot is "), Piece::Num(estimate as u64), Piece::Lit(" bytes, budget is "), Piece::Num(budget as u64), Piece::Lit(" (load_with_budget; byte budget != memory budget — the SoA materialization amplifies pathological shapes)")],
            SnapshotFault::NodeCountOverFile { declared, fit, bytes, min } => vec![Piece::Lit("node_count "), Piece::Num(declared as u64), Piece::Lit(" exceeds the "), Piece::Num(fit as u64), Piece::Lit(" records that fit in the "), Piece::Num(bytes as u64), Piece::Lit(" body bytes of the file (min record size "), Piece::Num(min as u64), Piece::Lit(") — pre-read length cross-check")],
            SnapshotFault::TrailingGarbage { bytes, max } => vec![Piece::Lit("file is larger than the maximum legal size for its header — trailing garbage ("), Piece::Num(bytes as u64), Piece::Lit(" body bytes > max "), Piece::Num(max as u64), Piece::Lit("; trailing bytes are rejected, checked pre-read so a hostile/sparse file is never fully read)")],
            SnapshotFault::ZeroVector { node } => vec![Piece::Lit("node "), Piece::Num(node as u64), Piece::Lit(": zero vector cannot serve Metric::Cosine — the snapshot was built for a different metric (metric is caller-supplied; entry validation holds at load)")],
            SnapshotFault::NoTempName { attempts } => vec![Piece::Lit("no available temporary snapshot name after "), Piece::Num(attempts as u64), Piece::Lit(" attempts — possible tampering or stale .tmp-* pileup")],
            SnapshotFault::ReadOnly => vec![Piece::Lit("insert: a graph loaded from a snapshot is read-only")],
        };
        assert(r@ =~= self.parts());
        r
    }
}

/// A vector file that is malformed or over budget.
#[derive(Debug, Clone, Copy)]
#[allow(inconsistent_fields)]
pub enum DataFault {
    /// The path is not a regular file.
    NotRegular { kind: &'static str },
    /// The file is over the caller's budget.
    Budget { kind: &'static str, len: u64, budget: u64 },
    /// The file length is not a multiple of four.
    Alignment { kind: &'static str, len: u64 },
    /// The stream ended inside a dimension field.
    PartialDim { kind: &'static str, record: usize, filled: usize },
    /// A dimension is zero or negative.
    NonPositiveDim { kind: &'static str, record: usize, dim: i32 },
    /// A dimension does not fit 16 bits.
    WideDim { kind: &'static str, record: usize, dim: i32 },
    /// The file length is not a multiple of the record size.
    RecordSize { kind: &'static str, len: u64, size: u64, dim: usize },
    /// A record's dimension differs from the first.
    DimChanged { kind: &'static str, record: usize, dim: usize, expected: usize },
    /// The stream ended inside a record's values.
    TruncatedValues { kind: &'static str, record: usize, filled: usize, need: usize },
    /// The file is longer than its declared length.
    Grew { kind: &'static str, len: u64 },
    /// The file has fewer records than its declared length; `expected` is 0
    /// where there was no record to tell how long one is.
    Shrank { kind: &'static str, records: usize, expected: u64, len: u64 },
}

impl DataFault {
    /// The kind of file, and what stands for the file where no path is named.
    pub open spec fn subject(self) -> (&'static str, &'static str) {
        match self {
            DataFault::NotRegular { kind } => (kind, " path"),
            DataFault::Budget { kind, .. } => (kind, " file"),
            DataFault::Alignment { kind, .. } => (kind, " file"),
            DataFault::PartialDim { kind, .. } => (kind, " file"),
            DataFault::NonPositiveDim { kind, .. } => (kind, " file"),
            DataFault::WideDim { kind, .. } => (kind, " file"),
            DataFault::RecordSize { kind, .. } => (kind, " file"),
            DataFault::DimChanged { kind, .. } => (kind, " file"),
            DataFault::TruncatedValues { kind, .. } => (kind, " file"),
            DataFault::Grew { kind, .. } => (kind, " file"),
            DataFault::Shrank { kind, .. } => (kind, " file"),
        }
    }

    /// What is said of the file.
    pub open spec fn predicate(self) -> Seq<Piece> {
        match self {
            DataFault::NotRegular { .. } => seq![Piece::Lit(" is not a regular file (FIFOs/devices/sockets have no trustworthy length)")],
            DataFault::Budget { len, budget, .. } => seq![Piece::Lit(" is "), Piece::Num(len as u64), Piece::Lit(" bytes, exceeding the caller budget of "), Piece::Num(budget as u64), Piece::Lit(" bytes")],
            DataFault::Alignment { len, .. } => seq![Piece::Lit(" has "), Piece::Num(len as u64), Piece::Lit(" bytes, not a multiple of the 4-byte record alignment")],
            DataFault::PartialDim { record, filled, .. } => seq![Piece::Lit(" record "), Piece::Num(record as u64), Piece::Lit(" has a partial dim field ("), Piece::Num(filled as u64), Piece::Lit(" of 4 bytes) — file changed under read")],
            DataFault::NonPositiveDim { record, dim, .. } => seq![Piece::Lit(" record "), Piece::Num(record as u64), Piece::Lit(" has non-positive dim "), Piece::Int(dim)],
            DataFault::WideDim { record, dim, .. } => seq![Piece::Lit(" record "), Piece::Num(record as u64), Piece::Lit(" has dim "), Piece::Int(dim), Piece::Lit(" > u16::MAX (Hnsw dims are u16; forged header rejected before allocation)")],
            DataFault::RecordSize { len, size, dim, .. } => seq![Piece::Lit(" has "), Piece::Num(len as u64), Piece::Lit(" bytes, not a multiple of record size "), Piece::Num(size as u64), Piece::Lit(" (dim "), Piece::Num(dim as u64), Piece::Lit(")")],
            DataFault::DimChanged { record, dim, expected, .. } => seq![Piece::Lit(" record "), Piece::Num(record as u64), Piece::Lit(" has dim "), Piece::Num(dim as u64), Piece::Lit(", expected "), Piece::Num(expected as u64), Piece::Lit(" (dims must be uniform)")],
            DataFault::TruncatedValues { record, filled, need, .. } => seq![Piece::Lit(" record "), Piece::Num(record as u64), Piece::Lit(" truncated after its dim field ("), Piece::Num(filled as u64), Piece::Lit(" of "), Piece::Num(need as u64), Piece::Lit(" value bytes) — file changed under read")],
            DataFault::Grew { len, .. } => seq![Piece::Lit(" grew after metadata (more than "), Piece::Num(len as u64), Piece::Lit(" bytes readable)")],
            DataFault::Shrank { records, expected, len, .. } => if expected == 0 {
                seq![Piece::Lit(" yielded no record, expected some from metadata length "), Piece::Num(len as u64), Piece::Lit(" (file shrank after metadata)")]
            } else {
                seq![Piece::Lit(" yielded "), Piece::Num(records as u64), Piece::Lit(" records, expected "), Piece::Num(expected as u64), Piece::Lit(" from metadata length "), Piece::Num(len as u64), Piece::Lit(" (file shrank after metadata)")]
            },
        }
    }

    /// The pieces of this fault's text.
    pub open spec fn parts(self) -> Seq<Piece> {
        seq![Piece::Lit(self.subject().0), Piece::Lit(self.subject().1)] + self.predicate()
    }

    /// This fault's text with the file's path.
    pub open spec fn text_for(self, path: Seq<char>) -> Seq<char> {
        let subject = seq![
            Piece::Lit(self.subject().0),
            Piece::Lit(self.subject().1),
            Piece::Lit(" "),
        ];
        text::text_of(subject) + path + text::text_of(self.predicate())
    }

    /// The kind of file, and what stands for the file where no path is named.
    fn subject_words(&self) -> (r: (&'static str, &'static str))
        ensures
            r == self.subject(),
    {
        match *self {
            DataFault::NotRegular { kind } => (kind, " path"),
            DataFault::Budget { kind, .. } => (kind, " file"),
            DataFault::Alignment { kind, .. } => (kind, " file"),
            DataFault::PartialDim { kind, .. } => (kind, " file"),
            DataFault::NonPositiveDim { kind, .. } => (kind, " file"),
            DataFault::WideDim { kind, .. } => (kind, " file"),
            DataFault::RecordSize { kind, .. } => (kind, " file"),
            DataFault::DimChanged { kind, .. } => (kind, " file"),
            DataFault::TruncatedValues { kind, .. } => (kind, " file"),
            DataFault::Grew { kind, .. } => (kind, " file"),
            DataFault::Shrank { kind, .. } => (kind, " file"),
        }
    }

    /// The pieces of this fault's text.
    pub fn pieces(&self) -> (r: Vec<Piece>)
        ensures
            r@ == self.parts(),
    {
        let (kind, place) = self.subject_words();
        let r: Vec<Piece> = text::joined(
            vec![Piece::Lit(kind), Piece::Lit(place)],
            self.predicate_pieces(),
        );
        assert(r@ =~= self.parts());
        r
    }

    /// This fault's text with the file's path.
    pub fn to_string_for(&self, path: &str) -> (r: String)
        ensures
            r@ == self.text_for(path@),
    {
        let (kind, place) = self.subject_words();
        let subject: Vec<Piece> = vec![Piece::Lit(kind), Piece::Lit(place), Piece::Lit(" ")];
        let predicate: Vec<Piece> = self.predicate_pieces();
        let mut r: String = text::render(&subject);
        r.append(path);
        r.append(text::render(&predicate).as_str());
        r
    }

    /// What is said of the file.
    fn predicate_pieces(&self) -> (r: Vec<Piece>)
        ensures
            r@ == self.predicate(),
    {
        let r: Vec<Piece> = match *self {
            DataFault::NotRegular { .. } => vec![Piece::Lit(" is not a regular file (FIFOs/devices/sockets have no trustworthy length)")],
            DataFault::Budget { len, budget, .. } => vec![Piece::Lit(" is "), Piece::Num(len as u64), Piece::Lit(" bytes, exceeding the caller budget of "), Piece::Num(budget as u64), Piece::Lit(" bytes")],
            DataFault::Alignment { len, .. } => vec![Piece::Lit(" has "), Piece::Num(len as u64), Piece::Lit(" bytes, not a multiple of the 4-byte record alignment")],
            DataFault::PartialDim { record, filled, .. } => vec![Piece::Lit(" record "), Piece::Num(record as u64), Piece::Lit(" has a partial dim field ("), Piece::Num(filled as u64), Piece::Lit(" of 4 bytes) — file changed under read")],
            DataFault::NonPositiveDim { record, dim, .. } => vec![Piece::Lit(" record "), Piece::Num(record as u64), Piece::Lit(" has non-positive dim "), Piece::Int(dim)],
            DataFault::WideDim { record, dim, .. } => vec![Piece::Lit(" record "), Piece::Num(record as u64), Piece::Lit(" has dim "), Piece::Int(dim), Piece::Lit(" > u16::MAX (Hnsw dims are u16; forged header rejected before allocation)")],
            DataFault::RecordSize { len, size, dim, .. } => vec![Piece::Lit(" has "), Piece::Num(len as u64), Piece::Lit(" bytes, not a multiple of record size "), Piece::Num(size as u64), Piece::Lit(" (dim "), Piece::Num(dim as u64), Piece::Lit(")")],
            DataFault::DimChanged { record, dim, expected, .. } => vec![Piece::Lit(" record "), Piece::Num(record as u64), Piece::Lit(" has dim "), Piece::Num(dim as u64), Piece::Lit(", expected "), Piece::Num(expected as u64), Piece::Lit(" (dims must be uniform)")],
            DataFault::TruncatedValues { record, filled, need, .. } => vec![Piece::Lit(" record "), Piece::Num(record as u64), Piece::Lit(" truncated after its dim field ("), Piece::Num(filled as u64), Piece::Lit(" of "), Piece::Num(need as u64), Piece::Lit(" value bytes) — file changed under read")],
            DataFault::Grew { len, .. } => vec![Piece::Lit(" grew after metadata (more than "), Piece::Num(len as u64), Piece::Lit(" bytes readable)")],
            DataFault::Shrank { records, expected, len, .. } => if expected == 0 {
                vec![Piece::Lit(" yielded no record, expected some from metadata length "), Piece::Num(len as u64), Piece::Lit(" (file shrank after metadata)")]
            } else {
                vec![Piece::Lit(" yielded "), Piece::Num(records as u64), Piece::Lit(" records, expected "), Piece::Num(expected as u64), Piece::Lit(" from metadata length "), Piece::Num(len as u64), Piece::Lit(" (file shrank after metadata)")]
            },
        };
        assert(r@ =~= self.predicate());
        r
    }
}

/// A recall computation whose inputs do not fit together.
#[derive(Debug, Clone, Copy)]
#[allow(inconsistent_fields)]
pub enum RecallFault {
    /// `k` is zero.
    KZero,
    /// The two sides have different numbers of queries.
    Rows { truth: usize, retrieved: usize },
    /// There is no query.
    NoQueries,
    /// A ground-truth row has fewer than `k` entries.
    TruthShort { query: usize, len: usize, k: usize },
    /// A ground-truth id is negative.
    TruthNegative { query: usize, id: i32 },
    /// A ground-truth id is not a base vector.
    TruthRange { query: usize, id: u32, base_count: u32 },
    /// A ground-truth row repeats an id.
    TruthDuplicate { query: usize, k: usize },
    /// A retrieved row has fewer than `k` entries.
    RetrievedShort { query: usize, len: usize, k: usize },
    /// A retrieved id is not a base vector.
    RetrievedRange { query: usize, id: u32, base_count: u32 },
    /// A retrieved row repeats an id.
    RetrievedDuplicate { query: usize, k: usize },
}

impl RecallFault {
    /// The pieces of this fault's text.
    pub open spec fn parts(self) -> Seq<Piece> {
        match self {
            RecallFault::KZero => seq![Piece::Lit("recall@k needs k >= 1")],
            RecallFault::Rows { truth, retrieved } => seq![Piece::Lit("ground-truth rows ("), Piece::Num(truth as u64), Piece::Lit(") != retrieved result sets ("), Piece::Num(retrieved as u64), Piece::Lit(")")],
            RecallFault::NoQueries => seq![Piece::Lit("recall@k needs at least one query")],
            RecallFault::TruthShort { query, len, k } => seq![Piece::Lit("query "), Piece::Num(query as u64), Piece::Lit(": ground-truth row has "), Piece::Num(len as u64), Piece::Lit(" entries < k = "), Piece::Num(k as u64)],
            RecallFault::TruthNegative { query, id } => seq![Piece::Lit("query "), Piece::Num(query as u64), Piece::Lit(": ground-truth row holds a negative id "), Piece::Int(id), Piece::Lit(" — corrupt ground truth")],
            RecallFault::TruthRange { query, id, base_count } => seq![Piece::Lit("query "), Piece::Num(query as u64), Piece::Lit(": ground-truth id "), Piece::Num(id as u64), Piece::Lit(" >= base_count "), Piece::Num(base_count as u64), Piece::Lit(" — corrupt ground truth")],
            RecallFault::TruthDuplicate { query, k } => seq![Piece::Lit("query "), Piece::Num(query as u64), Piece::Lit(": ground-truth row has a duplicate id within its first "), Piece::Num(k as u64), Piece::Lit(" — the gt set must be a set")],
            RecallFault::RetrievedShort { query, len, k } => seq![Piece::Lit("query "), Piece::Num(query as u64), Piece::Lit(": retrieved row has "), Piece::Num(len as u64), Piece::Lit(" entries < k = "), Piece::Num(k as u64)],
            RecallFault::RetrievedRange { query, id, base_count } => seq![Piece::Lit("query "), Piece::Num(query as u64), Piece::Lit(": retrieved id "), Piece::Num(id as u64), Piece::Lit(" >= base_count "), Piece::Num(base_count as u64)],
            RecallFault::RetrievedDuplicate { query, k } => seq![Piece::Lit("query "), Piece::Num(query as u64), Piece::Lit(": retrieved row has a duplicate id within its first "), Piece::Num(k as u64)],
        }
    }

    /// The pieces of this fault's text.
    pub fn pieces(&self) -> (r: Vec<Piece>)
        ensures
            r@ == self.parts(),
    {
        let r: Vec<Piece> = match *self {
            RecallFault::KZero => vec![Piece::Lit("recall@k needs k >= 1")],
            RecallFault::Rows { truth, retrieved } => vec![Piece::Lit("ground-truth rows ("), Piece::Num(truth as u64), Piece::Lit(") != retrieved result sets ("), Piece::Num(retrieved as u64), Piece::Lit(")")],
            RecallFault::NoQueries => vec![Piece::Lit("recall@k needs at least one query")],
            RecallFault::TruthShort { query, len, k } => vec![Piece::Lit("query "), Piece::Num(query as u64), Piece::Lit(": ground-truth row has "), Piece::Num(len as u64), Piece::Lit(" entries < k = "), Piece::Num(k as u64)],
            RecallFault::TruthNegative { query, id } => vec![Piece::Lit("query "), Piece::Num(query as u64), Piece::Lit(": ground-truth row holds a negative id "), Piece::Int(id), Piece::Lit(" — corrupt ground truth")],
            RecallFault::TruthRange { query, id, base_count } => vec![Piece::Lit("query "), Piece::Num(query as u64), Piece::Lit(": ground-truth id "), Piece::Num(id as u64), Piece::Lit(" >= base_count "), Piece::Num(base_count as u64), Piece::Lit(" — corrupt ground truth")],
            RecallFault::TruthDuplicate { query, k } => vec![Piece::Lit("query "), Piece::Num(query as u64), Piece::Lit(": ground-truth row has a duplicate id within its first "), Piece::Num(k as u64), Piece::Lit(" — the gt set must be a set")],
            RecallFault::RetrievedShort { query, len, k } => vec![Piece::Lit("query "), Piece::Num(query as u64), Piece::Lit(": retrieved row has "), Piece::Num(len as u64), Piece::Lit(" entries < k = "), Piece::Num(k as u64)],
            RecallFault::RetrievedRange { query, id, base_count } => vec![Piece::Lit("query "), Piece::Num(query as u64), Piece::Lit(": retrieved id "), Piece::Num(id as u64), Piece::Lit(" >= base_count "), Piece::Num(base_count as u64)],
            RecallFault::RetrievedDuplicate { query, k } => vec![Piece::Lit("query "), Piece::Num(query as u64), Piece::Lit(": retrieved row has a duplicate id within its first "), Piece::Num(k as u64)],
        };
        assert(r@ =~= self.parts());
        r
    }
}

/// A node-entry geometry that no page can hold.
#[derive(Debug, Clone, Copy)]
#[allow(inconsistent_fields)]
pub enum GeometryFault {
    /// The dimension is zero.
    DimZero,
    /// The worst-case entry does not fit one page.
    TooLarge { dim: u16, m: u16, m_max0: u16, l_max: u8, worst: usize },
}

impl GeometryFault {
    /// The pieces of this fault's text.
    pub open spec fn parts(self) -> Seq<Piece> {
        match self {
            GeometryFault::DimZero => seq![Piece::Lit("creation geometry: dim = 0 (rejected at every entry point)")],
            GeometryFault::TooLarge { dim, m, m_max0, l_max, worst } => seq![Piece::Lit("creation geometry rejected: worst-case entry 4·"), Piece::Num(dim as u64), Piece::Lit(" + 1 + (2 + 4·"), Piece::Num(m_max0 as u64), Piece::Lit(") + "), Piece::Num(l_max as u64), Piece::Lit("·(2 + 4·"), Piece::Num(m as u64), Piece::Lit(") = "), Piece::Num(worst as u64), Piece::Lit(" > page usable 8156 (dim/m/m_max0 product-linked check)")],
        }
    }

    /// The pieces of this fault's text.
    pub fn pieces(&self) -> (r: Vec<Piece>)
        ensures
            r@ == self.parts(),
    {
        let r: Vec<Piece> = match *self {
            GeometryFault::DimZero => vec![Piece::Lit("creation geometry: dim = 0 (rejected at every entry point)")],
            GeometryFault::TooLarge { dim, m, m_max0, l_max, worst } => vec![Piece::Lit("creation geometry rejected: worst-case entry 4·"), Piece::Num(dim as u64), Piece::Lit(" + 1 + (2 + 4·"), Piece::Num(m_max0 as u64), Piece::Lit(") + "), Piece::Num(l_max as u64), Piece::Lit("·(2 + 4·"), Piece::Num(m as u64), Piece::Lit(") = "), Piece::Num(worst as u64), Piece::Lit(" > page usable 8156 (dim/m/m_max0 product-linked check)")],
        };
        assert(r@ =~= self.parts());
        r
    }
}

/// A node page that cannot take, or does not hold, an entry.
#[derive(Debug, Clone, Copy)]
#[allow(inconsistent_fields)]
pub enum ApplyFault {
    /// The slot holds no entry.
    NotLive { what: &'static str, slot: u16 },
    /// The level's neighbor region lies outside the entry.
    Region { what: &'static str, level: u8, from: usize, to: usize, len: usize },
    /// The stored neighbor count is over the reserved capacity.
    Count { what: &'static str, count: usize, cap: u16, level: u8 },
    /// The state byte lies outside the entry.
    State { what: &'static str, at: usize, len: usize },
    /// The page header is not that of a slotted page.
    NotSlotted { what: &'static str, lower: usize, upper: usize },
    /// `pd_special` lies outside the page's tuple area.
    Special { what: &'static str, special: usize, upper: usize },
    /// The page has no room for the entry.
    NoRoom { len: usize, free: usize },
    /// The top level does not fit the state byte.
    TopLevel { top_level: u8 },
    /// The vector does not have the geometry's length.
    VectorLen { len: usize, dim: u16 },
    /// The slot's entry has another length.
    EntryLen { slot: u16, have: u16, need: usize },
    /// The slot's entry is already live.
    AlreadyLive { slot: u16 },
    /// The record's slot is not the next free one.
    Gap { slot: u16, next: u16 },
    /// The list does not fit the reserved region.
    Overflow { len: usize, cap: u16, level: u8 },
    /// The vector does not fit the entry.
    VectorWidth { dim: u16, len: usize },
}

impl ApplyFault {
    /// The pieces of this fault's text.
    pub open spec fn parts(self) -> Seq<Piece> {
        match self {
            ApplyFault::NotLive { what, slot } => seq![Piece::Lit(what), Piece::Lit(": slot "), Piece::Num(slot as u64), Piece::Lit(" is not a live entry on this node page")],
            ApplyFault::Region { what, level, from, to, len } => seq![Piece::Lit(what), Piece::Lit(": level "), Piece::Num(level as u64), Piece::Lit(" region ["), Piece::Num(from as u64), Piece::Lit(".."), Piece::Num(to as u64), Piece::Lit(") exceeds the "), Piece::Num(len as u64), Piece::Lit("-byte entry (dim/level geometry mismatch)")],
            ApplyFault::Count { what, count, cap, level } => seq![Piece::Lit(what), Piece::Lit(": stored count "), Piece::Num(count as u64), Piece::Lit(" exceeds reserved capacity "), Piece::Num(cap as u64), Piece::Lit(" of level "), Piece::Num(level as u64)],
            ApplyFault::State { what, at, len } => seq![Piece::Lit(what), Piece::Lit(": state offset "), Piece::Num(at as u64), Piece::Lit(" exceeds the "), Piece::Num(len as u64), Piece::Lit("-byte entry (dim geometry mismatch)")],
            ApplyFault::NotSlotted { what, lower, upper } => seq![Piece::Lit(what), Piece::Lit(": page is not slotted-initialized (pd_lower="), Piece::Num(lower as u64), Piece::Lit(", pd_upper="), Piece::Num(upper as u64), Piece::Lit(")")],
            ApplyFault::Special { what, special, upper } => seq![Piece::Lit(what), Piece::Lit(": pd_special "), Piece::Num(special as u64), Piece::Lit(" outside [pd_upper "), Piece::Num(upper as u64), Piece::Lit(", 8192]")],
            ApplyFault::NoRoom { len, free } => seq![Piece::Lit("node page has no room for a "), Piece::Num(len as u64), Piece::Lit("-byte entry (free "), Piece::Num(free as u64), Piece::Lit(" < "), Piece::Num(len as u64), Piece::Lit(" + 4 LP)")],
            ApplyFault::TopLevel { top_level } => seq![Piece::Lit("top_level "), Piece::Num(top_level as u64), Piece::Lit(" exceeds the 6-bit state-byte field (max 63)")],
            ApplyFault::VectorLen { len, dim } => seq![Piece::Lit("apply_node_at: vector has "), Piece::Num(len as u64), Piece::Lit(" components, dim is "), Piece::Num(dim as u64)],
            ApplyFault::EntryLen { slot, have, need } => seq![Piece::Lit("apply_node_at: slot "), Piece::Num(slot as u64), Piece::Lit(" entry is "), Piece::Num(have as u64), Piece::Lit(" bytes, record implies "), Piece::Num(need as u64), Piece::Lit(" (geometry mismatch)")],
            ApplyFault::AlreadyLive { slot } => seq![Piece::Lit("apply_node_at: slot "), Piece::Num(slot as u64), Piece::Lit(" is already LIVE — replay must be skipped by the pd_lsn guard, not overwritten")],
            ApplyFault::Gap { slot, next } => seq![Piece::Lit("apply_node_at: record targets slot "), Piece::Num(slot as u64), Piece::Lit(" but the next free slot is "), Piece::Num(next as u64), Piece::Lit(" (gap or stale record)")],
            ApplyFault::Overflow { len, cap, level } => seq![Piece::Lit("set_neighbors: "), Piece::Num(len as u64), Piece::Lit(" ids overflow the reserved capacity "), Piece::Num(cap as u64), Piece::Lit(" of level "), Piece::Num(level as u64)],
            ApplyFault::VectorWidth { dim, len } => seq![Piece::Lit("vector_iter: dim "), Piece::Num(dim as u64), Piece::Lit(" exceeds the "), Piece::Num(len as u64), Piece::Lit("-byte entry (dim geometry mismatch)")],
        }
    }

    /// The pieces of this fault's text.
    pub fn pieces(&self) -> (r: Vec<Piece>)
        ensures
            r@ == self.parts(),
    {
        let r: Vec<Piece> = match *self {
            ApplyFault::NotLive { what, slot } => vec![Piece::Lit(what), Piece::Lit(": slot "), Piece::Num(slot as u64), Piece::Lit(" is not a live entry on this node page")],
            ApplyFault::Region { what, level, from, to, len } => vec![Piece::Lit(what), Piece::Lit(": level "), Piece::Num(level as u64), Piece::Lit(" region ["), Piece::Num(from as u64), Piece::Lit(".."), Piece::Num(to as u64), Piece::Lit(") exceeds the "), Piece::Num(len as u64), Piece::Lit("-byte entry (dim/level geometry mismatch)")],
            ApplyFault::Count { what, count, cap, level } => vec![Piece::Lit(what), Piece::Lit(": stored count "), Piece::Num(count as u64), Piece::Lit(" exceeds reserved capacity "), Piece::Num(cap as u64), Piece::Lit(" of level "), Piece::Num(level as u64)],
            ApplyFault::State { what, at, len } => vec![Piece::Lit(what), Piece::Lit(": state offset "), Piece::Num(at as u64), Piece::Lit(" exceeds the "), Piece::Num(len as u64), Piece::Lit("-byte entry (dim geometry mismatch)")],
            ApplyFault::NotSlotted { what, lower, upper } => vec![Piece::Lit(what), Piece::Lit(": page is not slotted-initialized (pd_lower="), Piece::Num(lower as u64), Piece::Lit(", pd_upper="), Piece::Num(upper as u64), Piece::Lit(")")],
            ApplyFault::Special { what, special, upper } => vec![Piece::Lit(what), Piece::Lit(": pd_special "), Piece::Num(special as u64), Piece::Lit(" outside [pd_upper "), Piece::Num(upper as u64), Piece::Lit(", 8192]")],
            ApplyFault::NoRoom { len, free } => vec![Piece::Lit("node page has no room for a "), Piece::Num(len as u64), Piece::Lit("-byte entry (free "), Piece::Num(free as u64), Piece::Lit(" < "), Piece::Num(len as u64), Piece::Lit(" + 4 LP)")],
            ApplyFault::TopLevel { top_level } => vec![Piece::Lit("top_level "), Piece::Num(top_level as u64), Piece::Lit(" exceeds the 6-bit state-byte field (max 63)")],
            ApplyFault::VectorLen { len, dim } => vec![Piece::Lit("apply_node_at: vector has "), Piece::Num(len as u64), Piece::Lit(" components, dim is "), Piece::Num(dim as u64)],
            ApplyFault::EntryLen { slot, have, need } => vec![Piece::Lit("apply_node_at: slot "), Piece::Num(slot as u64), Piece::Lit(" entry is "), Piece::Num(have as u64), Piece::Lit(" bytes, record implies "), Piece::Num(need as u64), Piece::Lit(" (geometry mismatch)")],
            ApplyFault::AlreadyLive { slot } => vec![Piece::Lit("apply_node_at: slot "), Piece::Num(slot as u64), Piece::Lit(" is already LIVE — replay must be skipped by the pd_lsn guard, not overwritten")],
            ApplyFault::Gap { slot, next } => vec![Piece::Lit("apply_node_at: record targets slot "), Piece::Num(slot as u64), Piece::Lit(" but the next free slot is "), Piece::Num(next as u64), Piece::Lit(" (gap or stale record)")],
            ApplyFault::Overflow { len, cap, level } => vec![Piece::Lit("set_neighbors: "), Piece::Num(len as u64), Piece::Lit(" ids overflow the reserved capacity "), Piece::Num(cap as u64), Piece::Lit(" of level "), Piece::Num(level as u64)],
            ApplyFault::VectorWidth { dim, len } => vec![Piece::Lit("vector_iter: dim "), Piece::Num(dim as u64), Piece::Lit(" exceeds the "), Piece::Num(len as u64), Piece::Lit("-byte entry (dim geometry mismatch)")],
        };
        assert(r@ =~= self.parts());
        r
    }
}

/// A directory page, or a chain of them, that is malformed.
#[derive(Debug, Clone, Copy)]
#[allow(inconsistent_fields)]
pub enum DirFault {
    /// The page's count is over its capacity.
    CountAbove { what: &'static str, count: u32 },
    /// The page's ordinal overflows the chain arithmetic.
    OrdinalOverflow { ordinal: u64 },
    /// The high-water mark overflows.
    HwmOverflow { what: &'static str, ordinal: u64, count: u32 },
    /// The node belongs to an earlier page.
    Predates { node_id: u32, ordinal: u64, base: u64 },
    /// The node already maps elsewhere.
    Disagrees { node_id: u32, page: u64, slot: u16, want_page: u64, want_slot: u16 },
    /// The node is past the high-water mark.
    Gap { node_id: u32, hwm: u64 },
    /// The page is full.
    Full { count: u32 },
    /// The chain has no head page.
    HeadInvalid,
    /// The chain is over the sanity ceiling.
    Ceiling,
    /// The chain visits a page twice.
    Cycle { page: u64 },
    /// A chain page is not a directory page.
    NotDir { page: u64 },
    /// A page's ordinal is not its position.
    Ordinal { page: u64, ordinal: u64, expected: u64 },
    /// A page's count is over its capacity.
    PageCount { page: u64, count: u32 },
    /// The high-water mark is outside the node-id space.
    NodeIdSpace { hwm: u64 },
    /// A page before the tail is not full.
    MiddleNotFull { page: u64, count: u32 },
    /// A page links to itself.
    SelfLink { page: u64 },
    /// The entry index is not below the count.
    EntryIndex { index: u32, count: u32 },
}

impl DirFault {
    /// The pieces of this fault's text.
    pub open spec fn parts(self) -> Seq<Piece> {
        match self {
            DirFault::CountAbove { what, count } => seq![Piece::Lit(what), Piece::Lit(" count "), Piece::Num(count as u64), Piece::Lit(" exceeds capacity 813")],
            DirFault::OrdinalOverflow { ordinal } => seq![Piece::Lit("dir_append: directory ordinal "), Piece::Num(ordinal as u64), Piece::Lit(" overflows the chain math")],
            DirFault::HwmOverflow { what, ordinal, count } => seq![Piece::Lit(what), Piece::Lit(": high-water mark computation overflows (ordinal "), Piece::Num(ordinal as u64), Piece::Lit(", count "), Piece::Num(count as u64), Piece::Lit(")")],
            DirFault::Predates { node_id, ordinal, base } => seq![Piece::Lit("dir_append: node_id "), Piece::Num(node_id as u64), Piece::Lit(" predates this directory page (ordinal "), Piece::Num(ordinal as u64), Piece::Lit(", base "), Piece::Num(base as u64), Piece::Lit(")")],
            DirFault::Disagrees { node_id, page, slot, want_page, want_slot } => seq![Piece::Lit("dir_append: entry "), Piece::Num(node_id as u64), Piece::Lit(" already maps to ("), Piece::Num(page as u64), Piece::Lit(", "), Piece::Num(slot as u64), Piece::Lit("), record says ("), Piece::Num(want_page as u64), Piece::Lit(", "), Piece::Num(want_slot as u64), Piece::Lit(") — the directory post-image disagrees with the record")],
            DirFault::Gap { node_id, hwm } => seq![Piece::Lit("dir_append: node_id "), Piece::Num(node_id as u64), Piece::Lit(" leaves a gap at the chain high-water mark "), Piece::Num(hwm as u64)],
            DirFault::Full { count } => seq![Piece::Lit("directory page is full ("), Piece::Num(count as u64), Piece::Lit(" entries, capacity 813)")],
            DirFault::HeadInvalid => seq![Piece::Lit("check_dir_chain: chain head must be a real page (PageId::INVALID)")],
            DirFault::Ceiling => seq![Piece::Lit("check_dir_chain: chain exceeds the sanity ceiling of 4294967296 pages (cycle or runaway chain)")],
            DirFault::Cycle { page } => seq![Piece::Lit("check_dir_chain: cycle detected at page "), Piece::Num(page as u64)],
            DirFault::NotDir { page } => seq![Piece::Lit("check_dir_chain: page "), Piece::Num(page as u64), Piece::Lit(" is not a directory page")],
            DirFault::Ordinal { page, ordinal, expected } => seq![Piece::Lit("check_dir_chain: page "), Piece::Num(page as u64), Piece::Lit(" has ordinal "), Piece::Num(ordinal as u64), Piece::Lit(", expected "), Piece::Num(expected as u64), Piece::Lit(" (ordinals must be consecutive from 0)")],
            DirFault::PageCount { page, count } => seq![Piece::Lit("check_dir_chain: page "), Piece::Num(page as u64), Piece::Lit(" has count "), Piece::Num(count as u64), Piece::Lit(" > capacity 813")],
            DirFault::NodeIdSpace { hwm } => seq![Piece::Lit("check_dir_chain: high-water mark "), Piece::Num(hwm as u64), Piece::Lit(" exceeds the u32 NodeId space")],
            DirFault::MiddleNotFull { page, count } => seq![Piece::Lit("check_dir_chain: middle page "), Piece::Num(page as u64), Piece::Lit(" has count "), Piece::Num(count as u64), Piece::Lit(", expected exactly 813 (link only when the tail is full)")],
            DirFault::SelfLink { page } => seq![Piece::Lit("check_dir_chain: page "), Piece::Num(page as u64), Piece::Lit(" links to itself")],
            DirFault::EntryIndex { index, count } => seq![Piece::Lit("dir_entry: index "), Piece::Num(index as u64), Piece::Lit(" >= directory count "), Piece::Num(count as u64)],
        }
    }

    /// The pieces of this fault's text.
    pub fn pieces(&self) -> (r: Vec<Piece>)
        ensures
            r@ == self.parts(),
    {
        let r: Vec<Piece> = match *self {
            DirFault::CountAbove { what, count } => vec![Piece::Lit(what), Piece::Lit(" count "), Piece::Num(count as u64), Piece::Lit(" exceeds capacity 813")],
            DirFault::OrdinalOverflow { ordinal } => vec![Piece::Lit("dir_append: directory ordinal "), Piece::Num(ordinal as u64), Piece::Lit(" overflows the chain math")],
            DirFault::HwmOverflow { what, ordinal, count } => vec![Piece::Lit(what), Piece::Lit(": high-water mark computation overflows (ordinal "), Piece::Num(ordinal as u64), Piece::Lit(", count "), Piece::Num(count as u64), Piece::Lit(")")],
            DirFault::Predates { node_id, ordinal, base } => vec![Piece::Lit("dir_append: node_id "), Piece::Num(node_id as u64), Piece::Lit(" predates this directory page (ordinal "), Piece::Num(ordinal as u64), Piece::Lit(", base "), Piece::Num(base as u64), Piece::Lit(")")],
            DirFault::Disagrees { node_id, page, slot, want_page, want_slot } => vec![Piece::Lit("dir_append: entry "), Piece::Num(node_id as u64), Piece::Lit(" already maps to ("), Piece::Num(page as u64), Piece::Lit(", "), Piece::Num(slot as u64), Piece::Lit("), record says ("), Piece::Num(want_page as u64), Piece::Lit(", "), Piece::Num(want_slot as u64), Piece::Lit(") — the directory post-image disagrees with the record")],
            DirFault::Gap { node_id, hwm } => vec![Piece::Lit("dir_append: node_id "), Piece::Num(node_id as u64), Piece::Lit(" leaves a gap at the chain high-water mark "), Piece::Num(hwm as u64)],
            DirFault::Full { count } => vec![Piece::Lit("directory page is full ("), Piece::Num(count as u64), Piece::Lit(" entries, capacity 813)")],
            DirFault::HeadInvalid => vec![Piece::Lit("check_dir_chain: chain head must be a real page (PageId::INVALID)")],
            DirFault::Ceiling => vec![Piece::Lit("check_dir_chain: chain exceeds the sanity ceiling of 4294967296 pages (cycle or runaway chain)")],
            DirFault::Cycle { page } => vec![Piece::Lit("check_dir_chain: cycle detected at page "), Piece::Num(page as u64)],
            DirFault::NotDir { page } => vec![Piece::Lit("check_dir_chain: page "), Piece::Num(page as u64), Piece::Lit(" is not a directory page")],
            DirFault::Ordinal { page, ordinal, expected } => vec![Piece::Lit("check_dir_chain: page "), Piece::Num(page as u64), Piece::Lit(" has ordinal "), Piece::Num(ordinal as u64), Piece::Lit(", expected "), Piece::Num(expected as u64), Piece::Lit(" (ordinals must be consecutive from 0)")],
            DirFault::PageCount { page, count } => vec![Piece::Lit("check_dir_chain: page "), Piece::Num(page as u64), Piece::Lit(" has count "), Piece::Num(count as u64), Piece::Lit(" > capacity 813")],
            DirFault::NodeIdSpace { hwm } => vec![Piece::Lit("check_dir_chain: high-water mark "), Piece::Num(hwm as u64), Piece::Lit(" exceeds the u32 NodeId space")],
            DirFault::MiddleNotFull { page, count } => vec![Piece::Lit("check_dir_chain: middle page "), Piece::Num(page as u64), Piece::Lit(" has count "), Piece::Num(count as u64), Piece::Lit(", expected exactly 813 (link only when the tail is full)")],
            DirFault::SelfLink { page } => vec![Piece::Lit("check_dir_chain: page "), Piece::Num(page as u64), Piece::Lit(" links to itself")],
            DirFault::EntryIndex { index, count } => vec![Piece::Lit("dir_entry: index "), Piece::Num(index as u64), Piece::Lit(" >= directory count "), Piece::Num(count as u64)],
        };
        assert(r@ =~= self.parts());
        r
    }
}

/// A meta page that is malformed, or not the expected one.
#[derive(Debug, Clone, Copy)]
#[allow(inconsistent_fields)]
pub enum MetaFault {
    /// The page is not a meta page.
    NotMeta { tag: u16 },
    /// The meta format version is not the one read here.
    Version { version: u8 },
    /// The metric code is unknown.
    Metric { code: u8 },
    /// The neighbor-selection code is unknown.
    Selection { code: u8 },
    /// The dimension is zero.
    DimZero,
    /// `m` is below two.
    MBelowTwo { m: u16 },
    /// `m_max0` is below `m`.
    MMax0BelowM { m_max0: u16, m: u16 },
    /// `ef_construction` is below `m`.
    EfConstructionBelowM { ef: u32, m: u16 },
    /// `ef_search_default` is below `m`.
    EfSearchBelowM { ef: u32, m: u16 },
    /// The reserved field is not zero.
    Reserved { value: u16 },
    /// There is no directory head.
    DirHead,
    /// The snapshot format version is not the one read here.
    SnapshotVersion { version: u16 },
    /// `max_level` does not fit six bits.
    MaxLevelWide { max_level: u8 },
    /// `max_level` is over what a level draw gives.
    MaxLevelAbove { max_level: u8, m: u16, l_max: u8 },
    /// There is a level but no entry point.
    InvalidEntry { max_level: u8 },
    /// A stored number is not the expected one.
    Mismatch { field: &'static str, stored: u64, expected: u64 },
    /// A stored choice is not the expected one.
    MismatchName { field: &'static str, stored: &'static str, expected: &'static str },
}

impl MetaFault {
    /// The pieces of this fault's text.
    pub open spec fn parts(self) -> Seq<Piece> {
        match self {
            MetaFault::NotMeta { tag } => seq![Piece::Lit("page is not a meta page (page_type "), Piece::Num(tag as u64), Piece::Lit(")")],
            MetaFault::Version { version } => seq![Piece::Lit("meta_format_version "), Piece::Num(version as u64), Piece::Lit(" != 1")],
            MetaFault::Metric { code } => seq![Piece::Lit("unknown metric discriminant "), Piece::Num(code as u64)],
            MetaFault::Selection { code } => seq![Piece::Lit("unknown neighbor-selection discriminant "), Piece::Num(code as u64)],
            MetaFault::DimZero => seq![Piece::Lit("meta page has dim = 0 (rejected at every entry point)")],
            MetaFault::MBelowTwo { m } => seq![Piece::Lit("meta page has m = "), Piece::Num(m as u64), Piece::Lit(" < 2")],
            MetaFault::MMax0BelowM { m_max0, m } => seq![Piece::Lit("meta page has m_max0 = "), Piece::Num(m_max0 as u64), Piece::Lit(" < m = "), Piece::Num(m as u64)],
            MetaFault::EfConstructionBelowM { ef, m } => seq![Piece::Lit("meta page has ef_construction = "), Piece::Num(ef as u64), Piece::Lit(" < m = "), Piece::Num(m as u64)],
            MetaFault::EfSearchBelowM { ef, m } => seq![Piece::Lit("meta page has ef_search_default = "), Piece::Num(ef as u64), Piece::Lit(" < m = "), Piece::Num(m as u64)],
            MetaFault::Reserved { value } => seq![Piece::Lit("meta page reserved field is "), Piece::Num(value as u64), Piece::Lit(", must be 0")],
            MetaFault::DirHead => seq![Piece::Lit("meta page has dir_head = PageId::INVALID")],
            MetaFault::SnapshotVersion { version } => seq![Piece::Lit("meta page snapshot_format_version "), Piece::Num(version as u64), Piece::Lit(" != 1 (the logical-archive format this build reads)")],
            MetaFault::MaxLevelWide { max_level } => seq![Piece::Lit("meta page has max_level = "), Piece::Num(max_level as u64), Piece::Lit(" > 63 (6-bit top_level convention)")],
            MetaFault::MaxLevelAbove { max_level, m, l_max } => seq![Piece::Lit("meta page has max_level = "), Piece::Num(max_level as u64), Piece::Lit(" > l_max(m = "), Piece::Num(m as u64), Piece::Lit(") = "), Piece::Num(l_max as u64), Piece::Lit(" (no level draw can produce it)")],
            MetaFault::InvalidEntry { max_level } => seq![Piece::Lit("meta page has entry_point = NodeId::INVALID but max_level = "), Piece::Num(max_level as u64), Piece::Lit(" (INVALID is only legal for the empty graph, max_level = 0)")],
            MetaFault::Mismatch { field, stored, expected } => seq![Piece::Lit("meta page "), Piece::Lit(field), Piece::Lit(" = "), Piece::Num(stored as u64), Piece::Lit(", caller expected "), Piece::Num(expected as u64), Piece::Lit(" — creation-parameter mismatch must fail loudly")],
            MetaFault::MismatchName { field, stored, expected } => seq![Piece::Lit("meta page "), Piece::Lit(field), Piece::Lit(" = "), Piece::Lit(stored), Piece::Lit(", caller expected "), Piece::Lit(expected), Piece::Lit(" — creation-parameter mismatch must fail loudly")],
        }
    }

    /// The pieces of this fault's text.
    pub fn pieces(&self) -> (r: Vec<Piece>)
        ensures
            r@ == self.parts(),
    {
        let r: Vec<Piece> = match *self {
            MetaFault::NotMeta { tag } => vec![Piece::Lit("page is not a meta page (page_type "), Piece::Num(tag as u64), Piece::Lit(")")],
            MetaFault::Version { version } => vec![Piece::Lit("meta_format_version "), Piece::Num(version as u64), Piece::Lit(" != 1")],
            MetaFault::Metric { code } => vec![Piece::Lit("unknown metric discriminant "), Piece::Num(code as u64)],
            MetaFault::Selection { code } => vec![Piece::Lit("unknown neighbor-selection discriminant "), Piece::Num(code as u64)],
            MetaFault::DimZero => vec![Piece::Lit("meta page has dim = 0 (rejected at every entry point)")],
            MetaFault::MBelowTwo { m } => vec![Piece::Lit("meta page has m = "), Piece::Num(m as u64), Piece::Lit(" < 2")],
            MetaFault::MMax0BelowM { m_max0, m } => vec![Piece::Lit("meta page has m_max0 = "), Piece::Num(m_max0 as u64), Piece::Lit(" < m = "), Piece::Num(m as u64)],
            MetaFault::EfConstructionBelowM { ef, m } => vec![Piece::Lit("meta page has ef_construction = "), Piece::Num(ef as u64), Piece::Lit(" < m = "), Piece::Num(m as u64)],
            MetaFault::EfSearchBelowM { ef, m } => vec![Piece::Lit("meta page has ef_search_default = "), Piece::Num(ef as u64), Piece::Lit(" < m = "), Piece::Num(m as u64)],
            MetaFault::Reserved { value } => vec![Piece::Lit("meta page reserved field is "), Piece::Num(value as u64), Piece::Lit(", must be 0")],
            MetaFault::DirHead => vec![Piece::Lit("meta page has dir_head = PageId::INVALID")],
            MetaFault::SnapshotVersion { version } => vec![Piece::Lit("meta page snapshot_format_version "), Piece::Num(version as u64), Piece::Lit(" != 1 (the logical-archive format this build reads)")],
            MetaFault::MaxLevelWide { max_level } => vec![Piece::Lit("meta page has max_level = "), Piece::Num(max_level as u64), Piece::Lit(" > 63 (6-bit top_level convention)")],
            MetaFault::MaxLevelAbove { max_level, m, l_max } => vec![Piece::Lit("meta page has max_level = "), Piece::Num(max_level as u64), Piece::Lit(" > l_max(m = "), Piece::Num(m as u64), Piece::Lit(") = "), Piece::Num(l_max as u64), Piece::Lit(" (no level draw can produce it)")],
            MetaFault::InvalidEntry { max_level } => vec![Piece::Lit("meta page has entry_point = NodeId::INVALID but max_level = "), Piece::Num(max_level as u64), Piece::Lit(" (INVALID is only legal for the empty graph, max_level = 0)")],
            MetaFault::Mismatch { field, stored, expected } => vec![Piece::Lit("meta page "), Piece::Lit(field), Piece::Lit(" = "), Piece::Num(stored as u64), Piece::Lit(", caller expected "), Piece::Num(expected as u64), Piece::Lit(" — creation-parameter mismatch must fail loudly")],
            MetaFault::MismatchName { field, stored, expected } => vec![Piece::Lit("meta page "), Piece::Lit(field), Piece::Lit(" = "), Piece::Lit(stored), Piece::Lit(", caller expected "), Piece::Lit(expected), Piece::Lit(" — creation-parameter mismatch must fail loudly")],
        };
        assert(r@ =~= self.parts());
        r
    }
}

/// A record or an input that must not be applied.
#[derive(Debug, Clone, Copy)]
#[allow(inconsistent_fields)]
pub enum ValidateFault {
    /// The record's dimension is not the index's.
    NodeDim { dim: u16, meta_dim: u16 },
    /// The vector does not have the record's dimension.
    VectorLen { len: usize, dim: u16 },
    /// The level is over what a level draw gives.
    Level { level: u8, l_max: u8 },
    /// A vector component is NaN or infinite.
    NonFinite { index: usize },
    /// The count is not the number of ids.
    Count { count: u16, len: usize },
    /// The list is over the level's capacity.
    Capacity { len: usize, cap: usize, level: u8 },
    /// The level is above the entry's top level.
    TopLevel { level: u8, top: u8 },
    /// The list is not strictly ascending.
    NotAscending,
    /// The owner is in its own list.
    SelfLoop { owner: u32 },
    /// The record's dimension is not the index's.
    StateDim { what: &'static str, dim: u16, meta_dim: u16 },
}

impl ValidateFault {
    /// The pieces of this fault's text.
    pub open spec fn parts(self) -> Seq<Piece> {
        match self {
            ValidateFault::NodeDim { dim, meta_dim } => seq![Piece::Lit("NodeInit dim "), Piece::Num(dim as u64), Piece::Lit(" != meta dim "), Piece::Num(meta_dim as u64), Piece::Lit(" — metric/dim mismatch must fail loudly")],
            ValidateFault::VectorLen { len, dim } => seq![Piece::Lit("NodeInit vector has "), Piece::Num(len as u64), Piece::Lit(" components, dim is "), Piece::Num(dim as u64)],
            ValidateFault::Level { level, l_max } => seq![Piece::Lit("NodeInit level "), Piece::Num(level as u64), Piece::Lit(" > L_max "), Piece::Num(l_max as u64), Piece::Lit(" (⌊53·ln2/ln m⌋ recomputed from meta)")],
            ValidateFault::NonFinite { index } => seq![Piece::Lit("NodeInit non-finite vector component at index "), Piece::Num(index as u64)],
            ValidateFault::Count { count, len } => seq![Piece::Lit("SetNeighbors count "), Piece::Num(count as u64), Piece::Lit(" != "), Piece::Num(len as u64), Piece::Lit(" content ids")],
            ValidateFault::Capacity { len, cap, level } => seq![Piece::Lit("SetNeighbors "), Piece::Num(len as u64), Piece::Lit(" ids exceed the capacity "), Piece::Num(cap as u64), Piece::Lit(" of level "), Piece::Num(level as u64)],
            ValidateFault::TopLevel { level, top } => seq![Piece::Lit("SetNeighbors level "), Piece::Num(level as u64), Piece::Lit(" exceeds the entry's top level "), Piece::Num(top as u64)],
            ValidateFault::NotAscending => seq![Piece::Lit("SetNeighbors neighbors must be strictly ascending (duplicates included)")],
            ValidateFault::SelfLoop { owner } => seq![Piece::Lit("SetNeighbors self-loop: owner node_id "), Piece::Num(owner as u64), Piece::Lit(" is its own neighbor")],
            ValidateFault::StateDim { what, dim, meta_dim } => seq![Piece::Lit(what), Piece::Lit(" dim "), Piece::Num(dim as u64), Piece::Lit(" != meta dim "), Piece::Num(meta_dim as u64), Piece::Lit(" — the state-byte locator must match meta before apply")],
        }
    }

    /// The pieces of this fault's text.
    pub fn pieces(&self) -> (r: Vec<Piece>)
        ensures
            r@ == self.parts(),
    {
        let r: Vec<Piece> = match *self {
            ValidateFault::NodeDim { dim, meta_dim } => vec![Piece::Lit("NodeInit dim "), Piece::Num(dim as u64), Piece::Lit(" != meta dim "), Piece::Num(meta_dim as u64), Piece::Lit(" — metric/dim mismatch must fail loudly")],
            ValidateFault::VectorLen { len, dim } => vec![Piece::Lit("NodeInit vector has "), Piece::Num(len as u64), Piece::Lit(" components, dim is "), Piece::Num(dim as u64)],
            ValidateFault::Level { level, l_max } => vec![Piece::Lit("NodeInit level "), Piece::Num(level as u64), Piece::Lit(" > L_max "), Piece::Num(l_max as u64), Piece::Lit(" (⌊53·ln2/ln m⌋ recomputed from meta)")],
            ValidateFault::NonFinite { index } => vec![Piece::Lit("NodeInit non-finite vector component at index "), Piece::Num(index as u64)],
            ValidateFault::Count { count, len } => vec![Piece::Lit("SetNeighbors count "), Piece::Num(count as u64), Piece::Lit(" != "), Piece::Num(len as u64), Piece::Lit(" content ids")],
            ValidateFault::Capacity { len, cap, level } => vec![Piece::Lit("SetNeighbors "), Piece::Num(len as u64), Piece::Lit(" ids exceed the capacity "), Piece::Num(cap as u64), Piece::Lit(" of level "), Piece::Num(level as u64)],
            ValidateFault::TopLevel { level, top } => vec![Piece::Lit("SetNeighbors level "), Piece::Num(level as u64), Piece::Lit(" exceeds the entry's top level "), Piece::Num(top as u64)],
            ValidateFault::NotAscending => vec![Piece::Lit("SetNeighbors neighbors must be strictly ascending (duplicates included)")],
            ValidateFault::SelfLoop { owner } => vec![Piece::Lit("SetNeighbors self-loop: owner node_id "), Piece::Num(owner as u64), Piece::Lit(" is its own neighbor")],
            ValidateFault::StateDim { what, dim, meta_dim } => vec![Piece::Lit(what), Piece::Lit(" dim "), Piece::Num(dim as u64), Piece::Lit(" != meta dim "), Piece::Num(meta_dim as u64), Piece::Lit(" — the state-byte locator must match meta before apply")],
        };
        assert(r@ =~= self.parts());
        r
    }
}

/// An index operation that was refused.
#[derive(Debug, Clone, Copy)]
#[allow(inconsistent_fields)]
pub enum IndexFault {
    /// The vector does not have the index's dimension.
    VectorLen { what: &'static str, len: usize, dim: u16 },
    /// Every node id is in use.
    NodeIdSpace,
    /// The edge is already there.
    DuplicateEdge { from: u32, to: u32, level: u8 },
    /// The beam is narrower than the result set.
    EfBelowK { ef: usize, k: usize },
    /// The simulated crash point was reached.
    CrashProbe { marks: usize, mark: ProbeMark },
    /// The node is past the directory chain.
    ResolvePast { node: u32, pages: usize },
    /// A cached directory page is not one.
    ResolveNotDir { page: u64 },
    /// The directory maps a node to a page that is no node page.
    WrongType { node: u32, page: u64, tag: u16 },
    /// The entry point is not an allocated node.
    EntryPointRange { entry_point: u32, hwm: u64 },
    /// The first directory entry names a page that is no node page.
    RepairType { page: u64, tag: u16 },
    /// The first node's level is over what a level draw gives.
    RepairLevel { top: u8, m: u16, l_max: u8 },
}

impl IndexFault {
    /// The pieces of this fault's text.
    pub open spec fn parts(self) -> Seq<Piece> {
        match self {
            IndexFault::VectorLen { what, len, dim } => seq![Piece::Lit(what), Piece::Lit(" has "), Piece::Num(len as u64), Piece::Lit(" components, index dim is "), Piece::Num(dim as u64), Piece::Lit(" (same index never mixes dimensions)")],
            IndexFault::NodeIdSpace => seq![Piece::Lit("NodeId space (u32) exhausted; NodeId::INVALID must stay unallocated")],
            IndexFault::DuplicateEdge { from, to, level } => seq![Piece::Lit("insert: duplicate edge "), Piece::Num(from as u64), Piece::Lit(" -> "), Piece::Num(to as u64), Piece::Lit(" on level "), Piece::Num(level as u64)],
            IndexFault::EfBelowK { ef, k } => seq![Piece::Lit("ef = "), Piece::Num(ef as u64), Piece::Lit(" < k = "), Piece::Num(k as u64), Piece::Lit(" (the beam must fit the result set; this is the only per-query invariant)")],
            IndexFault::CrashProbe { marks, mark } => seq![Piece::Lit("crash probe: simulated crash after mark #"), Piece::Num(marks as u64), Piece::Lit(" (")] + mark.parts() + seq![Piece::Lit(")")],
            IndexFault::ResolvePast { node, pages } => seq![Piece::Lit("resolve: node "), Piece::Num(node as u64), Piece::Lit(" maps past the directory chain ("), Piece::Num(pages as u64), Piece::Lit(" pages)")],
            IndexFault::ResolveNotDir { page } => seq![Piece::Lit("resolve: page "), Piece::Num(page as u64), Piece::Lit(" is not a directory page")],
            IndexFault::WrongType { node, page, tag } => seq![Piece::Lit("paged graph: directory maps node "), Piece::Num(node as u64), Piece::Lit(" to page "), Piece::Num(page as u64), Piece::Lit(" of wrong type "), Piece::Num(tag as u64)],
            IndexFault::EntryPointRange { entry_point, hwm } => seq![Piece::Lit("meta page entry_point "), Piece::Num(entry_point as u64), Piece::Lit(" >= chain high-water mark "), Piece::Num(hwm as u64), Piece::Lit(" (the entry point must name an allocated node)")],
            IndexFault::RepairType { page, tag } => seq![Piece::Lit("open-repair: directory entry 0 points at page "), Piece::Num(page as u64), Piece::Lit(" with page_type "), Piece::Num(tag as u64), Piece::Lit(", not a node page")],
            IndexFault::RepairLevel { top, m, l_max } => seq![Piece::Lit("open-repair: node 0's top_level "), Piece::Num(top as u64), Piece::Lit(" > l_max(m = "), Piece::Num(m as u64), Piece::Lit(") = "), Piece::Num(l_max as u64), Piece::Lit(" (corrupt node entry — no level draw can produce it)")],
        }
    }

    /// The pieces of this fault's text.
    pub fn pieces(&self) -> (r: Vec<Piece>)
        ensures
            r@ == self.parts(),
    {
        let r: Vec<Piece> = match *self {
            IndexFault::VectorLen { what, len, dim } => vec![Piece::Lit(what), Piece::Lit(" has "), Piece::Num(len as u64), Piece::Lit(" components, index dim is "), Piece::Num(dim as u64), Piece::Lit(" (same index never mixes dimensions)")],
            IndexFault::NodeIdSpace => vec![Piece::Lit("NodeId space (u32) exhausted; NodeId::INVALID must stay unallocated")],
            IndexFault::DuplicateEdge { from, to, level } => vec![Piece::Lit("insert: duplicate edge "), Piece::Num(from as u64), Piece::Lit(" -> "), Piece::Num(to as u64), Piece::Lit(" on level "), Piece::Num(level as u64)],
            IndexFault::EfBelowK { ef, k } => vec![Piece::Lit("ef = "), Piece::Num(ef as u64), Piece::Lit(" < k = "), Piece::Num(k as u64), Piece::Lit(" (the beam must fit the result set; this is the only per-query invariant)")],
            IndexFault::CrashProbe { marks, mark } => text::joined(text::joined(vec![Piece::Lit("crash probe: simulated crash after mark #"), Piece::Num(marks as u64), Piece::Lit(" (")], mark.pieces()), vec![Piece::Lit(")")]),
            IndexFault::ResolvePast { node, pages } => vec![Piece::Lit("resolve: node "), Piece::Num(node as u64), Piece::Lit(" maps past the directory chain ("), Piece::Num(pages as u64), Piece::Lit(" pages)")],
            IndexFault::ResolveNotDir { page } => vec![Piece::Lit("resolve: page "), Piece::Num(page as u64), Piece::Lit(" is not a directory page")],
            IndexFault::WrongType { node, page, tag } => vec![Piece::Lit("paged graph: directory maps node "), Piece::Num(node as u64), Piece::Lit(" to page "), Piece::Num(page as u64), Piece::Lit(" of wrong type "), Piece::Num(tag as u64)],
            IndexFault::EntryPointRange { entry_point, hwm } => vec![Piece::Lit("meta page entry_point "), Piece::Num(entry_point as u64), Piece::Lit(" >= chain high-water mark "), Piece::Num(hwm as u64), Piece::Lit(" (the entry point must name an allocated node)")],
            IndexFault::RepairType { page, tag } => vec![Piece::Lit("open-repair: directory entry 0 points at page "), Piece::Num(page as u64), Piece::Lit(" with page_type "), Piece::Num(tag as u64), Piece::Lit(", not a node page")],
            IndexFault::RepairLevel { top, m, l_max } => vec![Piece::Lit("open-repair: node 0's top_level "), Piece::Num(top as u64), Piece::Lit(" > l_max(m = "), Piece::Num(m as u64), Piece::Lit(") = "), Piece::Num(l_max as u64), Piece::Lit(" (corrupt node entry — no level draw can produce it)")],
        };
        assert(r@ =~= self.parts());
        r
    }
}

/// A graph that fails the audit.
#[derive(Debug, Clone, Copy)]
#[allow(inconsistent_fields)]
pub enum AuditFault {
    /// The page is not a meta page.
    NotMeta { page: u64, tag: u16 },
    /// A directory entry names a page that is no node page.
    TargetType { id: u64, page: u64, tag: u16 },
    /// A directory entry names an empty slot.
    EmptySlot { id: u64, slot: u16, page: u64 },
    /// Two directory entries name one slot.
    Twice { page: u64, slot: u16 },
    /// A stored vector has a NaN or infinite component.
    NonFinite { id: u64 },
    /// A stored vector is zero under the cosine metric.
    ZeroVector { id: u64 },
    /// An entry is tombstoned but was never live.
    TombstonedNotLive { id: u64 },
    /// An entry's level is over what a level draw gives.
    TopLevel { id: u64, top: u8, m: u16, l_max: u8 },
    /// An empty graph has an entry point or a level.
    EmptyGraph { entry_point: u32, max_level: u8 },
    /// The entry point is not an allocated node.
    EntryPoint { entry_point: u32, hwm: u64 },
    /// The entry point does not stand at `max_level`.
    EntryLevel { entry_point: u32, top: u8, max_level: u8 },
    /// A neighbor list is not strictly ascending.
    NotAscending { id: u64, level: u8 },
    /// A node is its own neighbor.
    SelfLoop { id: u64, level: u8 },
    /// A neighbor is not an allocated node.
    Endpoint { id: u64, level: u8, neighbor: u32, hwm: u64 },
    /// A neighbor does not reach the edge's level.
    Level { id: u64, level: u8, neighbor: u32, top: u8 },
}

impl AuditFault {
    /// The pieces of this fault's text.
    pub open spec fn parts(self) -> Seq<Piece> {
        match self {
            AuditFault::NotMeta { page, tag } => seq![Piece::Lit("audit: page "), Piece::Num(page as u64), Piece::Lit(" is not a meta page (page_type "), Piece::Num(tag as u64), Piece::Lit(")")],
            AuditFault::TargetType { id, page, tag } => seq![Piece::Lit("audit f: directory entry "), Piece::Num(id as u64), Piece::Lit(" points at page "), Piece::Num(page as u64), Piece::Lit(" of page_type "), Piece::Num(tag as u64), Piece::Lit(", not a node page")],
            AuditFault::EmptySlot { id, slot, page } => seq![Piece::Lit("audit a: directory entry "), Piece::Num(id as u64), Piece::Lit(" maps to empty/out-of-range slot "), Piece::Num(slot as u64), Piece::Lit(" on page "), Piece::Num(page as u64)],
            AuditFault::Twice { page, slot } => seq![Piece::Lit("audit d/e: directory entries map twice to ("), Piece::Num(page as u64), Piece::Lit(", "), Piece::Num(slot as u64), Piece::Lit(") — the mapping must be unique")],
            AuditFault::NonFinite { id } => seq![Piece::Lit("audit: node "), Piece::Num(id as u64), Piece::Lit(" has a non-finite vector component (stored-side — the search path's finiteness premise)")],
            AuditFault::ZeroVector { id } => seq![Piece::Lit("audit: node "), Piece::Num(id as u64), Piece::Lit(" has an all-zero vector under the cosine metric (stored-side)")],
            AuditFault::TombstonedNotLive { id } => seq![Piece::Lit("audit: node "), Piece::Num(id as u64), Piece::Lit(" is tombstoned but not LIVE — the state machine (INITIALIZING → LIVE → tombstoned) makes this state unreachable by any legal record stream")],
            AuditFault::TopLevel { id, top, m, l_max } => seq![Piece::Lit("audit: node "), Piece::Num(id as u64), Piece::Lit(" has top_level "), Piece::Num(top as u64), Piece::Lit(" > l_max(m = "), Piece::Num(m as u64), Piece::Lit(") = "), Piece::Num(l_max as u64), Piece::Lit(" (no level draw can produce it)")],
            AuditFault::EmptyGraph { entry_point, max_level } => seq![Piece::Lit("audit c: empty graph must carry entry_point = INVALID and max_level = 0 (found entry_point "), Piece::Num(entry_point as u64), Piece::Lit(", max_level "), Piece::Num(max_level as u64), Piece::Lit(")")],
            AuditFault::EntryPoint { entry_point, hwm } => seq![Piece::Lit("audit c: entry_point "), Piece::Num(entry_point as u64), Piece::Lit(" >= chain high-water mark "), Piece::Num(hwm as u64)],
            AuditFault::EntryLevel { entry_point, top, max_level } => seq![Piece::Lit("audit c: entry point "), Piece::Num(entry_point as u64), Piece::Lit(" has top_level "), Piece::Num(top as u64), Piece::Lit(" != meta max_level "), Piece::Num(max_level as u64), Piece::Lit(" (the entry point must sit AT max_level)")],
            AuditFault::NotAscending { id, level } => seq![Piece::Lit("audit: node "), Piece::Num(id as u64), Piece::Lit(" level "), Piece::Num(level as u64), Piece::Lit(" neighbor list is not strictly ascending (write-path invariant)")],
            AuditFault::SelfLoop { id, level } => seq![Piece::Lit("audit: node "), Piece::Num(id as u64), Piece::Lit(" level "), Piece::Num(level as u64), Piece::Lit(" has a self-loop")],
            AuditFault::Endpoint { id, level, neighbor, hwm } => seq![Piece::Lit("audit a: node "), Piece::Num(id as u64), Piece::Lit(" level "), Piece::Num(level as u64), Piece::Lit(" references node "), Piece::Num(neighbor as u64), Piece::Lit(" >= high-water mark "), Piece::Num(hwm as u64)],
            AuditFault::Level { id, level, neighbor, top } => seq![Piece::Lit("audit b: node "), Piece::Num(id as u64), Piece::Lit(" level "), Piece::Num(level as u64), Piece::Lit(" references node "), Piece::Num(neighbor as u64), Piece::Lit(" with top_level "), Piece::Num(top as u64), Piece::Lit(" < "), Piece::Num(level as u64)],
        }
    }

    /// The pieces of this fault's text.
    pub fn pieces(&self) -> (r: Vec<Piece>)
        ensures
            r@ == self.parts(),
    {
        let r: Vec<Piece> = match *self {
            AuditFault::NotMeta { page, tag } => vec![Piece::Lit("audit: page "), Piece::Num(page as u64), Piece::Lit(" is not a meta page (page_type "), Piece::Num(tag as u64), Piece::Lit(")")],
            AuditFault::TargetType { id, page, tag } => vec![Piece::Lit("audit f: directory entry "), Piece::Num(id as u64), Piece::Lit(" points at page "), Piece::Num(page as u64), Piece::Lit(" of page_type "), Piece::Num(tag as u64), Piece::Lit(", not a node page")],
            AuditFault::EmptySlot { id, slot, page } => vec![Piece::Lit("audit a: directory entry "), Piece::Num(id as u64), Piece::Lit(" maps to empty/out-of-range slot "), Piece::Num(slot as u64), Piece::Lit(" on page "), Piece::Num(page as u64)],
            AuditFault::Twice { page, slot } => vec![Piece::Lit("audit d/e: directory entries map twice to ("), Piece::Num(page as u64), Piece::Lit(", "), Piece::Num(slot as u64), Piece::Lit(") — the mapping must be unique")],
            AuditFault::NonFinite { id } => vec![Piece::Lit("audit: node "), Piece::Num(id as u64), Piece::Lit(" has a non-finite vector component (stored-side — the search path's finiteness premise)")],
            AuditFault::ZeroVector { id } => vec![Piece::Lit("audit: node "), Piece::Num(id as u64), Piece::Lit(" has an all-zero vector under the cosine metric (stored-side)")],
            AuditFault::TombstonedNotLive { id } => vec![Piece::Lit("audit: node "), Piece::Num(id as u64), Piece::Lit(" is tombstoned but not LIVE — the state machine (INITIALIZING → LIVE → tombstoned) makes this state unreachable by any legal record stream")],
            AuditFault::TopLevel { id, top, m, l_max } => vec![Piece::Lit("audit: node "), Piece::Num(id as u64), Piece::Lit(" has top_level "), Piece::Num(top as u64), Piece::Lit(" > l_max(m = "), Piece::Num(m as u64), Piece::Lit(") = "), Piece::Num(l_max as u64), Piece::Lit(" (no level draw can produce it)")],
            AuditFault::EmptyGraph { entry_point, max_level } => vec![Piece::Lit("audit c: empty graph must carry entry_point = INVALID and max_level = 0 (found entry_point "), Piece::Num(entry_point as u64), Piece::Lit(", max_level "), Piece::Num(max_level as u64), Piece::Lit(")")],
            AuditFault::EntryPoint { entry_point, hwm } => vec![Piece::Lit("audit c: entry_point "), Piece::Num(entry_point as u64), Piece::Lit(" >= chain high-water mark "), Piece::Num(hwm as u64)],
            AuditFault::EntryLevel { entry_point, top, max_level } => vec![Piece::Lit("audit c: entry point "), Piece::Num(entry_point as u64), Piece::Lit(" has top_level "), Piece::Num(top as u64), Piece::Lit(" != meta max_level "), Piece::Num(max_level as u64), Piece::Lit(" (the entry point must sit AT max_level)")],
            AuditFault::NotAscending { id, level } => vec![Piece::Lit("audit: node "), Piece::Num(id as u64), Piece::Lit(" level "), Piece::Num(level as u64), Piece::Lit(" neighbor list is not strictly ascending (write-path invariant)")],
            AuditFault::SelfLoop { id, level } => vec![Piece::Lit("audit: node "), Piece::Num(id as u64), Piece::Lit(" level "), Piece::Num(level as u64), Piece::Lit(" has a self-loop")],
            AuditFault::Endpoint { id, level, neighbor, hwm } => vec![Piece::Lit("audit a: node "), Piece::Num(id as u64), Piece::Lit(" level "), Piece::Num(level as u64), Piece::Lit(" references node "), Piece::Num(neighbor as u64), Piece::Lit(" >= high-water mark "), Piece::Num(hwm as u64)],
            AuditFault::Level { id, level, neighbor, top } => vec![Piece::Lit("audit b: node "), Piece::Num(id as u64), Piece::Lit(" level "), Piece::Num(level as u64), Piece::Lit(" references node "), Piece::Num(neighbor as u64), Piece::Lit(" with top_level "), Piece::Num(top as u64), Piece::Lit(" < "), Piece::Num(level as u64)],
        };
        assert(r@ =~= self.parts());
        r
    }
}

/// A page store or a log that cannot serve a request.
#[derive(Debug, Clone, Copy)]
#[allow(inconsistent_fields)]
pub enum StorageFault {
    /// The page is not in the store.
    NoSuchPage { page: u64 },
    /// Every page id is in use.
    StoreFull,
    /// The record breaks a rule of its kind.
    BadRecord { kind: &'static str },
    /// Every log position is in use.
    LogFull,
}

impl StorageFault {
    /// The pieces of this fault's text.
    pub open spec fn parts(self) -> Seq<Piece> {
        match self {
            StorageFault::NoSuchPage { page } => seq![Piece::Lit("page "), Piece::Num(page as u64), Piece::Lit(" is not in the store")],
            StorageFault::StoreFull => seq![Piece::Lit("the page-id space is exhausted")],
            StorageFault::BadRecord { kind } => seq![Piece::Lit("malformed "), Piece::Lit(kind), Piece::Lit(" record")],
            StorageFault::LogFull => seq![Piece::Lit("the log-position space is exhausted")],
        }
    }

    /// The pieces of this fault's text.
    pub fn pieces(&self) -> (r: Vec<Piece>)
        ensures
            r@ == self.parts(),
    {
        let r: Vec<Piece> = match *self {
            StorageFault::NoSuchPage { page } => vec![Piece::Lit("page "), Piece::Num(page as u64), Piece::Lit(" is not in the store")],
            StorageFault::StoreFull => vec![Piece::Lit("the page-id space is exhausted")],
            StorageFault::BadRecord { kind } => vec![Piece::Lit("malformed "), Piece::Lit(kind), Piece::Lit(" record")],
            StorageFault::LogFull => vec![Piece::Lit("the log-position space is exhausted")],
        };
        assert(r@ =~= self.parts());
        r
    }
}

/// Any fault.
#[derive(Debug, Clone, Copy)]
pub enum Reason {
    /// See [`ParamFault`].
    Params(ParamFault),
    /// See [`VectorFault`].
    Vector(VectorFault),
    /// See [`CodecFault`].
    Codec(CodecFault),
    /// See [`SnapshotFault`].
    Snapshot(SnapshotFault),
    /// See [`DataFault`].
    Data(DataFault),
    /// See [`RecallFault`].
    Recall(RecallFault),
    /// See [`GeometryFault`].
    Geometry(GeometryFault),
    /// See [`ApplyFault`].
    Apply(ApplyFault),
    /// See [`DirFault`].
    Dir(DirFault),
    /// See [`MetaFault`].
    Meta(MetaFault),
    /// See [`ValidateFault`].
    Validate(ValidateFault),
    /// See [`IndexFault`].
    Index(IndexFault),
    /// See [`AuditFault`].
    Audit(AuditFault),
}

impl Reason {
    /// The pieces of the reason's text.
    pub open spec fn parts(self) -> Seq<Piece> {
        match self {
            Reason::Params(f) => f.parts(),
            Reason::Vector(f) => f.parts(),
            Reason::Codec(f) => f.parts(),
            Reason::Snapshot(f) => f.parts(),
            Reason::Data(f) => f.parts(),
            Reason::Recall(f) => f.parts(),
            Reason::Geometry(f) => f.parts(),
            Reason::Apply(f) => f.parts(),
            Reason::Dir(f) => f.parts(),
            Reason::Meta(f) => f.parts(),
            Reason::Validate(f) => f.parts(),
            Reason::Index(f) => f.parts(),
            Reason::Audit(f) => f.parts(),
        }
    }

    /// The pieces of the reason's text.
    pub fn pieces(&self) -> (r: Vec<Piece>)
        ensures
            r@ == self.parts(),
    {
        match *self {
            Reason::Params(f) => f.pieces(),
            Reason::Vector(f) => f.pieces(),
            Reason::Codec(f) => f.pieces(),
            Reason::Snapshot(f) => f.pieces(),
            Reason::Data(f) => f.pieces(),
            Reason::Recall(f) => f.pieces(),
            Reason::Geometry(f) => f.pieces(),
            Reason::Apply(f) => f.pieces(),
            Reason::Dir(f) => f.pieces(),
            Reason::Meta(f) => f.pieces(),
            Reason::Validate(f) => f.pieces(),
            Reason::Index(f) => f.pieces(),
            Reason::Audit(f) => f.pieces(),
        }
    }
}

} // verus!
