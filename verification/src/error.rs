//! The error type of the access method.

use vstd::prelude::*;

use crate::fault::Reason;
use crate::fault::StorageFault;
use crate::text;
use crate::text::Piece;

verus! {

/// Errors returned by the HNSW access method.
#[derive(Debug, Clone, Copy)]
pub enum HnswError {
    /// A construction parameter is outside its domain (`M >= 2`,
    /// `M_max0 >= M`, `ef_construction >= M`, `ef_search_default >= M`).
    InvalidParams(Reason),
    /// A caller supplied invalid arguments: a dimension mismatch, an empty
    /// vector, a component that is not finite, a budget that is too small.
    InvalidArgument(Reason),
    /// Cosine distance is undefined for a zero vector.
    ZeroVector,
    /// Stored bytes are malformed, or a stored graph is.
    Corrupted(Reason),
    /// The CRC32 prefix does not match the body.
    ChecksumMismatch {
        /// CRC32 stored in the 4-byte prefix.
        stored: u32,
        /// CRC32 recomputed over the body.
        computed: u32,
    },
    /// The operation is not allowed in the current state.
    InvalidOperation(Reason),
    /// The page store or the log could not serve a request.
    Storage {
        /// What was being done.
        context: &'static str,
        /// What failed.
        fault: StorageFault,
    },
}

impl HnswError {
    /// The pieces of the error's text.
    pub open spec fn parts(self) -> Seq<Piece> {
        match self {
            HnswError::InvalidParams(r) => seq![Piece::Lit("invalid parameter: ")] + r.parts(),
            HnswError::InvalidArgument(r) => seq![Piece::Lit("invalid argument: ")] + r.parts(),
            HnswError::ZeroVector => seq![
                Piece::Lit("cosine distance undefined for a zero vector"),
            ],
            HnswError::Corrupted(r) => seq![Piece::Lit("corrupted data: ")] + r.parts(),
            HnswError::ChecksumMismatch { stored, computed } => seq![
                Piece::Lit("checksum mismatch: stored 0x"),
                Piece::Hex8(stored),
                Piece::Lit(", computed 0x"),
                Piece::Hex8(computed),
            ],
            HnswError::InvalidOperation(r) => seq![Piece::Lit("invalid operation: ")] + r.parts(),
            HnswError::Storage { context, fault } => seq![
                Piece::Lit("storage error: "),
                Piece::Lit(context),
                Piece::Lit(": "),
            ] + fault.parts(),
        }
    }

    /// The error's text.
    pub open spec fn text(self) -> Seq<char> {
        text::text_of(self.parts())
    }

    /// The pieces of the error's text.
    pub fn pieces(&self) -> (r: Vec<Piece>)
        ensures
            r@ == self.parts(),
    {
        let r: Vec<Piece> = match *self {
            HnswError::InvalidParams(r) => text::joined(
                vec![Piece::Lit("invalid parameter: ")],
                r.pieces(),
            ),
            HnswError::InvalidArgument(r) => text::joined(
                vec![Piece::Lit("invalid argument: ")],
                r.pieces(),
            ),
            HnswError::ZeroVector => vec![
                Piece::Lit("cosine distance undefined for a zero vector"),
            ],
            HnswError::Corrupted(r) => text::joined(
                vec![Piece::Lit("corrupted data: ")],
                r.pieces(),
            ),
            HnswError::ChecksumMismatch { stored, computed } => vec![
                Piece::Lit("checksum mismatch: stored 0x"),
                Piece::Hex8(stored),
                Piece::Lit(", computed 0x"),
                Piece::Hex8(computed),
            ],
            HnswError::InvalidOperation(r) => text::joined(
                vec![Piece::Lit("invalid operation: ")],
                r.pieces(),
            ),
            HnswError::Storage { context, fault } => text::joined(
                vec![Piece::Lit("storage error: "), Piece::Lit(context), Piece::Lit(": ")],
                fault.pieces(),
            ),
        };
        assert(r@ =~= self.parts());
        r
    }

    /// The error's text where it is about the file at `path`.
    pub open spec fn text_for(self, path: Seq<char>) -> Seq<char> {
        match self {
            HnswError::InvalidArgument(Reason::Data(f)) => "invalid argument: "@ + f.text_for(path),
            HnswError::Corrupted(Reason::Data(f)) => "corrupted data: "@ + f.text_for(path),
            e => e.text(),
        }
    }

    /// The error in words where it is about the file at `path`: an error of a
    /// vector file names the path.
    pub fn to_string_for(&self, path: &str) -> (r: String)
        ensures
            r@ == self.text_for(path@),
    {
        match *self {
            HnswError::InvalidArgument(Reason::Data(f)) => {
                let mut r: String = String::from_str("invalid argument: ");
                r.append(f.to_string_for(path).as_str());
                r
            },
            HnswError::Corrupted(Reason::Data(f)) => {
                let mut r: String = String::from_str("corrupted data: ");
                r.append(f.to_string_for(path).as_str());
                r
            },
            e => e.to_string(),
        }
    }

    /// The error in words.
    pub fn to_string(&self) -> (r: String)
        ensures
            r@ == self.text(),
    {
        let p: Vec<Piece> = self.pieces();
        text::render(&p)
    }
}

} // verus!
